//! Configuration from the environment, and names.

use streams::config::{
    is_loopback_addr, is_valid_name, is_valid_router_name, secret_eq, EnvVars, ServerConfig,
    MAX_BODY_BYTES,
};

fn none() -> EnvVars {
    EnvVars {
        host: None,
        port: None,
        api_keys: None,
        probe_auth: None,
        max_body_bytes: None,
        data_dir: None,
        allow_insecure_no_auth: None,
    }
}

fn some(s: &str) -> Option<String> {
    Some(s.to_string())
}

#[test]
fn an_empty_environment_gives_the_defaults() {
    let cfg = ServerConfig::from_env(&none());
    let def = ServerConfig::default();
    assert_eq!(cfg.bind_addr, "127.0.0.1:4000");
    assert_eq!(cfg.bind_addr, def.bind_addr);
    assert!(cfg.api_keys.is_empty() && !cfg.auth_enabled());
    assert!(!cfg.probe_auth);
    assert_eq!(cfg.max_body_bytes, MAX_BODY_BYTES);
    assert_eq!(cfg.max_body_bytes, 64 << 20);
    assert_eq!(cfg.data_dir.as_deref(), Some("./streams-data"));
    assert!(!cfg.allow_insecure_no_auth);
    assert!(cfg.start_allowed());
}

#[test]
fn host_and_port() {
    let bind = |host: Option<&str>, port: Option<&str>| {
        let env = EnvVars {
            host: host.map(str::to_string),
            port: port.map(str::to_string),
            ..none()
        };
        ServerConfig::from_env(&env).bind_addr
    };
    assert_eq!(bind(Some("0.0.0.0"), None), "0.0.0.0:4000");
    assert_eq!(bind(Some("0.0.0.0"), Some("81")), "0.0.0.0:81");
    assert_eq!(bind(Some("h:9"), Some("81")), "h:9");
    assert_eq!(bind(None, Some("81")), "127.0.0.1:81");
}

#[test]
fn keys_are_split_trimmed_and_never_empty() {
    let env = EnvVars { api_keys: some(" a, ,b ,,c"), ..none() };
    let cfg = ServerConfig::from_env(&env);
    assert_eq!(cfg.api_keys, vec!["a", "b", "c"]);
    assert!(cfg.auth_enabled());
    assert!(cfg.key_matches("b"));
    assert!(!cfg.key_matches("B"));
    assert!(!cfg.key_matches(""));
    let env = EnvVars { api_keys: some(" , "), ..none() };
    assert!(!ServerConfig::from_env(&env).auth_enabled());
}

#[test]
fn flags_numbers_and_directories() {
    for (text, on) in [("true", true), ("1", true), ("0", false), ("yes", false)] {
        let env = EnvVars {
            probe_auth: some(text),
            allow_insecure_no_auth: some(text),
            ..none()
        };
        let cfg = ServerConfig::from_env(&env);
        assert_eq!(cfg.probe_auth, on);
        assert_eq!(cfg.allow_insecure_no_auth, on);
    }
    let size = |text: &str| {
        ServerConfig::from_env(&EnvVars { max_body_bytes: some(text), ..none() }).max_body_bytes
    };
    assert_eq!(size("1024"), 1024);
    assert_eq!(size("+7"), 7);
    assert_eq!(size("007"), 7);
    assert_eq!(size("-1"), MAX_BODY_BYTES);
    assert_eq!(size("1k"), MAX_BODY_BYTES);
    assert_eq!(size(""), MAX_BODY_BYTES);
    assert_eq!(size("18446744073709551615"), usize::MAX);
    assert_eq!(size("18446744073709551616"), MAX_BODY_BYTES);
    let dir = |text: &str| {
        ServerConfig::from_env(&EnvVars { data_dir: some(text), ..none() }).data_dir.unwrap()
    };
    assert_eq!(dir(" /var/x "), "/var/x");
    assert_eq!(dir("  "), "./streams-data");
}

#[test]
fn an_open_server_does_not_start_by_accident() {
    let mut cfg = ServerConfig::default();
    cfg.bind_addr = "0.0.0.0:4000".to_string();
    assert!(!cfg.start_allowed());
    cfg.allow_insecure_no_auth = true;
    assert!(cfg.start_allowed());
    cfg.allow_insecure_no_auth = false;
    cfg.api_keys.push("k".to_string());
    assert!(cfg.start_allowed());
}

#[test]
fn loopback_addresses() {
    assert!(is_loopback_addr("127.0.0.1:4000"));
    assert!(is_loopback_addr("127.8.9.10:1"));
    assert!(is_loopback_addr("localhost:4000"));
    assert!(is_loopback_addr("[::1]:4000"));
    assert!(!is_loopback_addr("0.0.0.0:4000"));
    assert!(!is_loopback_addr("127.example.com:4000"));
    assert!(!is_loopback_addr("10.127.0.1:4000"));
}

#[test]
fn box_names() {
    assert!(is_valid_name("jobs"));
    assert!(is_valid_name("a"));
    assert!(is_valid_name("9.A_b:c-d"));
    assert!(!is_valid_name(""));
    assert!(!is_valid_name("_foo"));
    assert!(!is_valid_name("-x"));
    assert!(!is_valid_name("a b"));
    assert!(!is_valid_name("a>b"));
    assert!(!is_valid_name("caf\u{e9}"));
    assert!(is_valid_name(&"x".repeat(255)));
    assert!(!is_valid_name(&"x".repeat(256)));
}

#[test]
fn router_names() {
    assert!(is_valid_router_name("jobs->audit"));
    assert!(is_valid_router_name("jobs"));
    assert!(!is_valid_router_name(">jobs"));
    assert!(!is_valid_router_name(""));
    assert!(!is_valid_router_name(&"x".repeat(256)));
    let route = format!("{}->{}", "s".repeat(126), "d".repeat(127));
    assert!(is_valid_router_name(&route));
}

#[test]
fn secrets_compare_by_content() {
    assert!(secret_eq("abc", "abc"));
    assert!(!secret_eq("abc", "abd"));
    assert!(!secret_eq("abc", "ab"));
    assert!(secret_eq("", ""));
}
