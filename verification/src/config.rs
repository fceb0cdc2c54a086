//! Service configuration. All parameters are validated eagerly: an illegal configuration is
//! rejected at startup rather than at first use.

use crate::address;
use crate::error::{KvError, KvFault};
pub use crate::table::Limits;
use crate::text;
use vstd::prelude::*;
use vstd::string::*;

verus! {

/// Settings of the service.
#[derive(Debug, Clone)]
pub struct Config {
    pub data_dir: String,
    pub listen_addr: String,
    /// Maximum allowed key size in bytes (must be > 0).
    pub max_key_bytes: usize,
    /// Maximum allowed value size in bytes (must be > 0).
    pub max_value_bytes: usize,
    /// Maximum number of operations inside one transaction (must be > 0).
    pub max_txn_ops: usize,
    /// WAL size in bytes that triggers a snapshot compaction (must be > 0).
    pub compaction_threshold_bytes: u64,
}

/// What a [`Config`] says.
pub struct ConfigView {
    pub data_dir: Seq<char>,
    pub listen_addr: Seq<char>,
    pub max_key_bytes: usize,
    pub max_value_bytes: usize,
    pub max_txn_ops: usize,
    pub compaction_threshold_bytes: u64,
}

impl View for Config {
    type V = ConfigView;

    open spec fn view(&self) -> ConfigView {
        ConfigView {
            data_dir: self.data_dir@,
            listen_addr: self.listen_addr@,
            max_key_bytes: self.max_key_bytes,
            max_value_bytes: self.max_value_bytes,
            max_txn_ops: self.max_txn_ops,
            compaction_threshold_bytes: self.compaction_threshold_bytes,
        }
    }
}

/// The settings that hold where nothing else is said.
pub open spec fn default_config() -> ConfigView {
    ConfigView {
        data_dir: "./data"@,
        listen_addr: "0.0.0.0:8080"@,
        max_key_bytes: 65536,
        max_value_bytes: 1048576,
        max_txn_ops: 1024,
        compaction_threshold_bytes: 16777216,
    }
}

impl Default for Config {
    fn default() -> (r: Config)
        ensures
            r@ == default_config(),
    {
        Config {
            data_dir: "./data".to_string(),
            listen_addr: "0.0.0.0:8080".to_string(),
            max_key_bytes: 64 * 1024,
            max_value_bytes: 1024 * 1024,
            max_txn_ops: 1024,
            compaction_threshold_bytes: 16 * 1024 * 1024,
        }
    }
}

/// The positive number, at most `max`, that a setting stands for, or why it is rejected.
pub open spec fn positive_setting(name: Seq<char>, raw: Seq<char>, max: int) -> Result<
    int,
    KvFault,
> {
    match text::signed_value(vstd::utf8::encode_utf8(raw)) {
        Some(n) if i64::MIN <= n <= i64::MAX => if n <= 0 {
            Err(
                KvFault::InvalidConfig(
                    name + " must be positive, got "@ + text::signed_decimal(n),
                ),
            )
        } else if n > max {
            Err(
                KvFault::InvalidConfig(name + "="@ + text::signed_decimal(n) + " out of range"@),
            )
        } else {
            Ok(n)
        },
        _ => Err(
            KvFault::InvalidConfig(name + "="@ + text::quoted(raw) + " is not a valid integer"@),
        ),
    }
}

/// Reads a setting that must be a positive number of at most `max`.
fn parse_positive(name: &str, raw: &str, max: u64) -> (r: Result<u64, KvError>)
    ensures
        match r {
            Ok(n) => positive_setting(name@, raw@, max as int) == Ok::<_, KvFault>(n as int),
            Err(e) => positive_setting(name@, raw@, max as int) == Err::<int, _>(e@),
        },
{
    let value: i64 = match text::read_signed(raw.as_bytes()) {
        Some(v) => v,
        None => {
            let mut s = name.to_string();
            s.append("=");
            s.append(text::quoted_text(raw).as_str());
            s.append(" is not a valid integer");
            return Err(KvError::InvalidConfig(s));
        },
    };
    if value <= 0 {
        let mut s = name.to_string();
        s.append(" must be positive, got ");
        s.append(text::signed_text(value).as_str());
        return Err(KvError::InvalidConfig(s));
    }
    let n: u64 = value as u64;
    if n > max {
        let mut s = name.to_string();
        s.append("=");
        s.append(text::signed_text(value).as_str());
        s.append(" out of range");
        return Err(KvError::InvalidConfig(s));
    }
    Ok(n)
}

/// The settings after one variable. The operation limit and the threshold each have two names.
pub open spec fn set_var(c: ConfigView, name: Seq<char>, value: Seq<char>) -> Result<
    ConfigView,
    KvFault,
> {
    if name == "DATA_DIR"@ {
        Ok(ConfigView { data_dir: value, ..c })
    } else if name == "LISTEN_ADDR"@ {
        Ok(ConfigView { listen_addr: value, ..c })
    } else if name == "MAX_KEY_BYTES"@ {
        match positive_setting(name, value, usize::MAX as int) {
            Ok(n) => Ok(ConfigView { max_key_bytes: n as usize, ..c }),
            Err(e) => Err(e),
        }
    } else if name == "MAX_VALUE_BYTES"@ {
        match positive_setting(name, value, usize::MAX as int) {
            Ok(n) => Ok(ConfigView { max_value_bytes: n as usize, ..c }),
            Err(e) => Err(e),
        }
    } else if name == "MAX_TXN_OPS"@ || name == "MAX_OPS_PER_TXN"@ {
        match positive_setting(name, value, usize::MAX as int) {
            Ok(n) => Ok(ConfigView { max_txn_ops: n as usize, ..c }),
            Err(e) => Err(e),
        }
    } else if name == "COMPACTION_THRESHOLD_BYTES"@ || name == "WAL_COMPACT_THRESHOLD"@ {
        match positive_setting(name, value, u64::MAX as int) {
            Ok(n) => Ok(ConfigView { compaction_threshold_bytes: n as u64, ..c }),
            Err(e) => Err(e),
        }
    } else {
        Err(KvFault::InvalidConfig("unknown config key: "@ + name))
    }
}

/// The settings after variables, in order, up to the first that is rejected.
pub open spec fn set_vars(vars: Seq<(String, String)>) -> Result<ConfigView, KvFault>
    decreases vars.len(),
{
    if vars.len() == 0 {
        Ok(default_config())
    } else {
        match set_vars(vars.drop_last()) {
            Ok(c) => set_var(c, vars.last().0@, vars.last().1@),
            Err(e) => Err(e),
        }
    }
}

/// The settings that variables stand for, or why they are rejected.
pub open spec fn loaded(vars: Seq<(String, String)>) -> Result<ConfigView, KvFault> {
    match set_vars(vars) {
        Ok(c) => if text::blank(c.data_dir) {
            Err(KvFault::InvalidConfig("DATA_DIR must not be empty"@))
        } else if text::blank(c.listen_addr) {
            Err(KvFault::InvalidConfig("LISTEN_ADDR must not be empty"@))
        } else if !address::socket_address(vstd::utf8::encode_utf8(c.listen_addr)) {
            Err(
                KvFault::InvalidConfig(
                    "LISTEN_ADDR="@ + text::quoted(c.listen_addr)
                        + " is not a valid socket address"@,
                ),
            )
        } else {
            Ok(c)
        },
        Err(e) => Err(e),
    }
}

proof fn lemma_set_vars_stops(vars: Seq<(String, String)>, n: int)
    requires
        0 <= n <= vars.len(),
        set_vars(vars.take(n)) is Err,
    ensures
        set_vars(vars) == set_vars(vars.take(n)),
    decreases vars.len() - n,
{
    if n < vars.len() {
        assert(vars.take(n + 1).drop_last() =~= vars.take(n));
        lemma_set_vars_stops(vars, n + 1);
    } else {
        assert(vars.take(n) =~= vars);
    }
}

impl Config {
    /// Takes over one variable.
    fn set(&mut self, name: &str, value: &str) -> (r: Result<(), KvError>)
        ensures
            match r {
                Ok(_) => set_var(old(self)@, name@, value@) == Ok::<_, KvFault>(final(self)@),
                Err(e) => set_var(old(self)@, name@, value@) == Err::<ConfigView, _>(e@)
                    && final(self)@ == old(self)@,
            },
    {
        if text::same_text(name, "DATA_DIR") {
            self.data_dir = value.to_string();
        } else if text::same_text(name, "LISTEN_ADDR") {
            self.listen_addr = value.to_string();
        } else if text::same_text(name, "MAX_KEY_BYTES") {
            match parse_positive(name, value, usize::MAX as u64) {
                Ok(n) => {
                    self.max_key_bytes = n as usize;
                },
                Err(e) => return Err(e),
            }
        } else if text::same_text(name, "MAX_VALUE_BYTES") {
            match parse_positive(name, value, usize::MAX as u64) {
                Ok(n) => {
                    self.max_value_bytes = n as usize;
                },
                Err(e) => return Err(e),
            }
        } else if text::same_text(name, "MAX_TXN_OPS") || text::same_text(name, "MAX_OPS_PER_TXN") {
            match parse_positive(name, value, usize::MAX as u64) {
                Ok(n) => {
                    self.max_txn_ops = n as usize;
                },
                Err(e) => return Err(e),
            }
        } else if text::same_text(name, "COMPACTION_THRESHOLD_BYTES") || text::same_text(
            name,
            "WAL_COMPACT_THRESHOLD",
        ) {
            match parse_positive(name, value, u64::MAX) {
                Ok(n) => {
                    self.compaction_threshold_bytes = n;
                },
                Err(e) => return Err(e),
            }
        } else {
            let mut s = "unknown config key: ".to_string();
            s.append(name);
            return Err(KvError::InvalidConfig(s));
        }
        Ok(())
    }

    /// The settings that name/value pairs stand for; where a name is absent its default holds.
    pub fn load_from(vars: Vec<(String, String)>) -> (r: Result<Config, KvError>)
        ensures
            match r {
                Ok(c) => loaded(vars@) == Ok::<_, KvFault>(c@),
                Err(e) => loaded(vars@) == Err::<ConfigView, _>(e@),
            },
    {
        let mut cfg = Config::default();
        let mut i: usize = 0;
        assert(vars@.take(0) =~= Seq::empty());
        while i < vars.len()
            invariant
                i <= vars@.len(),
                set_vars(vars@.take(i as int)) == Ok::<_, KvFault>(cfg@),
            decreases vars@.len() - i,
        {
            proof {
                assert(vars@.take(i + 1).drop_last() =~= vars@.take(i as int));
                assert(vars@.take(i + 1).last() == vars@[i as int]);
            }
            match cfg.set(vars[i].0.as_str(), vars[i].1.as_str()) {
                Ok(_) => {},
                Err(e) => {
                    proof {
                        lemma_set_vars_stops(vars@, i + 1);
                    }
                    return Err(e);
                },
            }
            i += 1;
        }
        assert(vars@.take(i as int) =~= vars@);
        if text::is_blank(cfg.data_dir.as_str()) {
            return Err(KvError::InvalidConfig("DATA_DIR must not be empty".to_string()));
        }
        if text::is_blank(cfg.listen_addr.as_str()) {
            return Err(KvError::InvalidConfig("LISTEN_ADDR must not be empty".to_string()));
        }
        if !address::is_socket_address(cfg.listen_addr.as_str()) {
            let mut s = "LISTEN_ADDR=".to_string();
            s.append(text::quoted_text(cfg.listen_addr.as_str()).as_str());
            s.append(" is not a valid socket address");
            return Err(KvError::InvalidConfig(s));
        }
        Ok(cfg)
    }
}

/// Every size in an accepted configuration is positive.
pub open spec fn sizes_positive(c: ConfigView) -> bool {
    &&& c.max_key_bytes > 0
    &&& c.max_value_bytes > 0
    &&& c.max_txn_ops > 0
    &&& c.compaction_threshold_bytes > 0
}

proof fn lemma_set_vars_positive(vars: Seq<(String, String)>)
    requires
        set_vars(vars) is Ok,
    ensures
        sizes_positive(set_vars(vars)->Ok_0),
    decreases vars.len(),
{
    if vars.len() > 0 {
        lemma_set_vars_positive(vars.drop_last());
    }
}

/// An illegal configuration is rejected at startup: whatever is loaded has positive limits and a
/// positive threshold, the directory is not blank, and the address is a socket address.
pub proof fn lemma_loaded_is_legal(vars: Seq<(String, String)>)
    requires
        loaded(vars) is Ok,
    ensures
        sizes_positive(loaded(vars)->Ok_0),
        !text::blank(loaded(vars)->Ok_0.data_dir),
        !text::blank(loaded(vars)->Ok_0.listen_addr),
        address::socket_address(vstd::utf8::encode_utf8(loaded(vars)->Ok_0.listen_addr)),
{
    lemma_set_vars_positive(vars);
}

} // verus!
