//! A standalone in-memory transactional key-value store.

pub mod address;
pub mod api;
pub mod api_laws;
pub mod config;
pub mod endian;
pub mod engine;
pub mod error;
pub mod frame;
pub mod journal;
pub mod keymap;
pub mod layout;
pub mod metrics;
pub mod order;
pub mod record;
pub mod seed;
pub mod server;
pub mod server_laws;
pub mod service_laws;
pub mod snapshot;
pub mod store;
pub mod store_laws;
pub mod table;
pub mod table_laws;
pub mod text;
pub mod text_laws;
pub mod timeline;
pub mod wal;

