use mcproxy::config::{default_ping, Config, Server, Target};

fn entry(host: Option<&str>, port: Option<u16>, dst: &str) -> Server {
    Server {
        src: Target { host: host.map(|h| h.to_string()), port },
        dst: dst.to_string(),
    }
}

fn table(servers: Option<Vec<Server>>) -> Config {
    Config { host: "0.0.0.0".to_string(), port: 25565, motd: None, servers }
}

fn resolve<'a>(config: &'a Config, host: &str, port: u16) -> Option<&'a str> {
    config.find_server(host, port).map(|s| s.dst.as_str())
}

#[test]
fn routing_scenario() {
    let config = table(Some(vec![
        entry(Some("a.com"), None, "A"),
        entry(Some("b.com"), Some(25566), "B"),
    ]));
    assert_eq!(resolve(&config, "a.com", 1), Some("A"));
    assert_eq!(resolve(&config, "b.com", 25566), Some("B"));
    assert_eq!(resolve(&config, "b.com", 1), None);
    assert_eq!(resolve(&config, "c.com", 1), None);
}

#[test]
fn routing_first_match_wins() {
    let config = table(Some(vec![
        entry(None, Some(25565), "first"),
        entry(Some("x.org"), None, "second"),
    ]));
    assert_eq!(resolve(&config, "x.org", 25565), Some("first"));
    assert_eq!(resolve(&config, "x.org", 1), Some("second"));
}

#[test]
fn routing_wildcard_entry_matches_anything() {
    let config = table(Some(vec![entry(None, None, "any")]));
    assert_eq!(resolve(&config, "", 0), Some("any"));
    assert_eq!(resolve(&config, "whatever.net", 65535), Some("any"));
}

#[test]
fn routing_without_entries_finds_nothing() {
    assert_eq!(resolve(&table(None), "a.com", 1), None);
    assert_eq!(resolve(&table(Some(vec![])), "a.com", 1), None);
}

#[test]
fn target_host_comparison_is_exact() {
    let t = Target { host: Some("a.com".to_string()), port: None };
    assert!(t.matches("a.com", 7));
    assert!(!t.matches("A.com", 7));
    assert!(!t.matches("a.com.", 7));
    assert!(!t.matches("a.co", 7));
    let t = Target { host: Some("héllo".to_string()), port: Some(3) };
    assert!(t.matches("héllo", 3));
    assert!(!t.matches("hello", 3));
    assert!(!t.matches("héllo", 4));
}

#[test]
fn ping_defaults_to_enabled() {
    assert!(default_ping());
}
