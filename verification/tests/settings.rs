//! Configuration: defaults, accepted values and rejections.

use kvstore::address::is_socket_address;
use kvstore::config::Config;
use kvstore::error::KvError;

fn vars(pairs: &[(&str, &str)]) -> Vec<(String, String)> {
    pairs
        .iter()
        .map(|(k, v)| (k.to_string(), v.to_string()))
        .collect()
}

fn message(pairs: &[(&str, &str)]) -> String {
    match Config::load_from(vars(pairs)) {
        Err(KvError::InvalidConfig(m)) => m,
        other => panic!("expected a rejected configuration, got {other:?}"),
    }
}

#[test]
fn defaults_are_valid() {
    assert!(Config::load_from(vars(&[])).is_ok());
}

#[test]
fn zero_and_negative_thresholds_are_rejected() {
    for bad in ["0", "-1", "-1024"] {
        let err = Config::load_from(vars(&[("COMPACTION_THRESHOLD_BYTES", bad)])).unwrap_err();
        assert!(matches!(err, KvError::InvalidConfig(_)), "{bad}");
    }
}

#[test]
fn zero_limits_are_rejected() {
    assert!(matches!(
        Config::load_from(vars(&[("MAX_KEY_BYTES", "0")])).unwrap_err(),
        KvError::InvalidConfig(_)
    ));
    assert!(matches!(
        Config::load_from(vars(&[("MAX_TXN_OPS", "-3")])).unwrap_err(),
        KvError::InvalidConfig(_)
    ));
    assert!(matches!(
        Config::load_from(vars(&[("MAX_VALUE_BYTES", "not-a-number")])).unwrap_err(),
        KvError::InvalidConfig(_)
    ));
}

#[test]
fn unknown_config_is_rejected() {
    assert!(matches!(
        Config::load_from(vars(&[("TYPO", "1")])).unwrap_err(),
        KvError::InvalidConfig(_)
    ));
}

#[test]
fn illegal_config_rejected_at_startup() {
    for bad in [
        vec![("COMPACTION_THRESHOLD_BYTES", "0")],
        vec![("COMPACTION_THRESHOLD_BYTES", "-10")],
        vec![("MAX_KEY_BYTES", "0")],
        vec![("MAX_VALUE_BYTES", "-1")],
        vec![("MAX_TXN_OPS", "0")],
    ] {
        assert!(matches!(
            Config::load_from(vars(&bad)).unwrap_err(),
            KvError::InvalidConfig(_)
        ));
    }
}

#[test]
fn config_rejects_nonpositive_threshold() {
    let m = message(&[("WAL_COMPACT_THRESHOLD", "0")]);
    assert_eq!(m, "WAL_COMPACT_THRESHOLD must be positive, got 0");
    assert!(Config::load_from(vars(&[("WAL_COMPACT_THRESHOLD", "-10")])).is_err());
    let c = Config::load_from(vars(&[("WAL_COMPACT_THRESHOLD", "10")])).unwrap();
    assert_eq!(c.compaction_threshold_bytes, 10);
}

#[test]
fn config_rejects_nonpositive_limits() {
    for var in ["MAX_KEY_BYTES", "MAX_VALUE_BYTES", "MAX_OPS_PER_TXN"] {
        assert!(
            Config::load_from(vars(&[(var, "0")])).is_err(),
            "{var}=0 must be rejected"
        );
        assert!(
            Config::load_from(vars(&[(var, "-1")])).is_err(),
            "{var}=-1 must be rejected"
        );
        assert!(Config::load_from(vars(&[(var, "1")])).is_ok());
    }
}

#[test]
fn default_values() {
    let c = Config::default();
    assert_eq!(c.data_dir, "./data");
    assert_eq!(c.listen_addr, "0.0.0.0:8080");
    assert_eq!(c.max_key_bytes, 65536);
    assert_eq!(c.max_value_bytes, 1048576);
    assert_eq!(c.max_txn_ops, 1024);
    assert_eq!(c.compaction_threshold_bytes, 16777216);
}

#[test]
fn values_are_taken_over_and_the_last_one_counts() {
    let c = Config::load_from(vars(&[
        ("DATA_DIR", "/var/kv"),
        ("LISTEN_ADDR", "127.0.0.1:9"),
        ("MAX_KEY_BYTES", "+7"),
        ("MAX_VALUE_BYTES", "0009"),
        ("MAX_TXN_OPS", "3"),
        ("COMPACTION_THRESHOLD_BYTES", "9223372036854775807"),
        ("MAX_TXN_OPS", "4"),
    ]))
    .unwrap();
    assert_eq!(c.data_dir, "/var/kv");
    assert_eq!(c.listen_addr, "127.0.0.1:9");
    assert_eq!(c.max_key_bytes, 7);
    assert_eq!(c.max_value_bytes, 9);
    assert_eq!(c.max_txn_ops, 4);
    assert_eq!(c.compaction_threshold_bytes, 9223372036854775807);
}

#[test]
fn rejection_messages() {
    assert_eq!(message(&[("TYPO", "1")]), "unknown config key: TYPO");
    assert_eq!(
        message(&[("MAX_TXN_OPS", "-3")]),
        "MAX_TXN_OPS must be positive, got -3"
    );
    assert_eq!(
        message(&[("MAX_TXN_OPS", "a\"b")]),
        "MAX_TXN_OPS=\"a\\\"b\" is not a valid integer"
    );
    for bad in ["", "+", "-", " 1", "1 ", "1_0", "9223372036854775808", "-9223372036854775809"] {
        assert_eq!(
            message(&[("MAX_KEY_BYTES", bad)]),
            format!("MAX_KEY_BYTES={bad:?} is not a valid integer")
        );
    }
    assert_eq!(
        message(&[("MAX_KEY_BYTES", "-9223372036854775808")]),
        "MAX_KEY_BYTES must be positive, got -9223372036854775808"
    );
}

#[test]
fn blank_texts_are_rejected() {
    assert_eq!(message(&[("DATA_DIR", "")]), "DATA_DIR must not be empty");
    assert_eq!(
        message(&[("DATA_DIR", " \t\u{3000}\u{85}")]),
        "DATA_DIR must not be empty"
    );
    assert_eq!(
        message(&[("LISTEN_ADDR", "\n")]),
        "LISTEN_ADDR must not be empty"
    );
    assert!(Config::load_from(vars(&[("DATA_DIR", " x ")])).is_ok());
    assert!(Config::load_from(vars(&[("DATA_DIR", "\u{200b}")])).is_ok());
}

#[test]
fn white_space_is_what_std_says() {
    for c in '\u{0}'..='\u{ffff}' {
        assert_eq!(kvstore::text::is_white_space(c), c.is_whitespace(), "{c:?}");
    }
}

#[test]
fn listen_addresses() {
    let legal = [
        "0.0.0.0:8080",
        "255.255.255.255:65535",
        "127.0.0.1:0",
        "127.0.0.1:00080",
        "[::]:80",
        "[::1]:80",
        "[1::]:80",
        "[2001:db8::8a2e:370:7334]:443",
        "[1:2:3:4:5:6:7:8]:1",
        "[1:2:3:4:5:6:7::]:1",
        "[::2:3:4:5:6:7:8]:1",
        "[::ffff:192.0.2.128]:1",
        "[1:2:3:4:5:6:1.2.3.4]:1",
        "[FE80::1%7]:1",
        "[fe80::1%4294967295]:1",
    ];
    let illegal = [
        "not-an-address",
        "localhost:80",
        "",
        ":80",
        "1.2.3.4",
        "1.2.3.4:",
        "1.2.3.4:65536",
        "1.2.3.4:+80",
        "1.2.3.4:80 ",
        " 1.2.3.4:80",
        "1.2.3:80",
        "1.2.3.4.5:80",
        "1.2.3.256:80",
        "1.2.3.04:80",
        "1.2..4:80",
        "1.2.3.4:80:80",
        "99999999999999999999.2.3.4:80",
        "::1:80",
        "[::1]80",
        "[::1]",
        "[::1]:",
        "[::1:80",
        "[]:80",
        "[:]:80",
        "[:::]:80",
        "[1]:80",
        "[1:2:3:4:5:6:7:8:9]:1",
        "[1:2:3:4:5:6:7]:1",
        "[1:2:3:4:5:6:7:8::]:1",
        "[1:2:3:4::5:6:7:8]:1",
        "[1::2::3]:1",
        "[12345::]:1",
        "[g::]:1",
        "[1.2.3.4::]:1",
        "[1:2:3:4:5:6:7:1.2.3.4]:1",
        "[::1.2.3.4:5]:1",
        "[::1%]:1",
        "[::1%x]:1",
        "[::1%4294967296]:1",
        "[::1]]:1",
        "1.2.3.4]:1",
    ];
    for text in legal {
        assert!(is_socket_address(text), "{text:?}");
        let c = Config::load_from(vars(&[("LISTEN_ADDR", text)])).unwrap();
        assert_eq!(c.listen_addr, text);
    }
    for text in illegal {
        assert!(!is_socket_address(text), "{text:?}");
        assert!(matches!(
            Config::load_from(vars(&[("LISTEN_ADDR", text)])),
            Err(KvError::InvalidConfig(_))
        ));
    }
    assert_eq!(
        message(&[("LISTEN_ADDR", "not-an-address")]),
        "LISTEN_ADDR=\"not-an-address\" is not a valid socket address"
    );
}
