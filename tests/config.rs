use oxitrack::config::{parse_port, Config, DEFAULT_PORT};

#[test]
fn defaults_when_nothing_is_set() {
    let c = Config::from_settings(None, None);
    assert_eq!(c.database_url(), "sqlite:oxitrack.db");
    assert_eq!(c.port(), 3000);
    assert_eq!(DEFAULT_PORT, 3000);
}

#[test]
fn settings_override_defaults() {
    let c = Config::from_settings(Some("sqlite:other.db".to_string()), Some("8080".to_string()));
    assert_eq!(c.database_url(), "sqlite:other.db");
    assert_eq!(c.port(), 8080);
}

#[test]
fn invalid_port_falls_back_to_default() {
    let c = Config::from_settings(None, Some("eighty".to_string()));
    assert_eq!(c.port(), 3000);
    let c = Config::from_settings(None, Some("70000".to_string()));
    assert_eq!(c.port(), 3000);
}

#[test]
fn new_keeps_values() {
    let c = Config::new("db".to_string(), 1);
    assert_eq!(c.database_url(), "db");
    assert_eq!(c.port(), 1);
}

#[test]
fn port_parsing_matches_std() {
    for text in ["0", "80", "+80", "065535", "65535", "65536", "", "+", "-1", " 80", "80 ", "8a0", "99999999999", "++1", "-0"] {
        assert_eq!(parse_port(text), text.parse::<u16>().ok(), "{text}");
    }
    assert_eq!(parse_port("+443"), Some(443));
    assert_eq!(parse_port("65536"), None);
}
