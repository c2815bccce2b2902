use teledustry::config::{parse_port, Config, ConfigError};

fn s(v: &str) -> String {
    v.to_string()
}

#[test]
fn full_configuration_is_accepted() {
    let config = Config::parse(
        vec![s("server.jar")],
        false,
        Some(s("SECRET-REDACTED")),
        Some(s("socks5://localhost:9050")),
        Some(b"8443".to_vec()),
    )
    .unwrap();
    assert_eq!(config.file, s("server.jar"));
    assert_eq!(config.token, s("SECRET-REDACTED"));
    assert_eq!(config.proxy, Some(s("socks5://localhost:9050")));
    assert_eq!(config.webhook, 8443);
}

#[test]
fn missing_file_is_refused_first() {
    // The free-argument check comes before the help flag, as the option
    // handling always decided the file first.
    let r = Config::parse(vec![], true, Some(s("t")), None, None);
    assert!(matches!(r, Err(ConfigError::ServerFileMissing)));
}

#[test]
fn extra_arguments_are_reported() {
    let r = Config::parse(
        vec![s("server.jar"), s("stray"), s("another")],
        false,
        Some(s("t")),
        None,
        None,
    );
    match r {
        Err(ConfigError::UnrecognizedArguments(extra)) => {
            assert_eq!(extra, vec![s("stray"), s("another")]);
        },
        _ => panic!("extra free arguments must be refused"),
    }
}

#[test]
fn help_flag_wins_over_missing_token() {
    let r = Config::parse(vec![s("server.jar")], true, None, None, None);
    assert!(matches!(r, Err(ConfigError::HelpRequested)));
}

#[test]
fn missing_token_is_refused() {
    let r = Config::parse(vec![s("server.jar")], false, None, None, None);
    assert!(matches!(r, Err(ConfigError::TokenMissing)));
}

#[test]
fn absent_webhook_port_means_longpoll() {
    let config = Config::parse(vec![s("server.jar")], false, Some(s("t")), None, None).unwrap();
    assert_eq!(config.webhook, 0);
}

#[test]
fn webhook_port_parsing_falls_back_to_zero() {
    assert_eq!(parse_port(b"8080"), 8080);
    assert_eq!(parse_port(b"+443"), 443);
    assert_eq!(parse_port(b"65535"), 65535);
    assert_eq!(parse_port(b"65536"), 0);
    assert_eq!(parse_port(b"70000"), 0);
    assert_eq!(parse_port(b""), 0);
    assert_eq!(parse_port(b"+"), 0);
    assert_eq!(parse_port(b"80a0"), 0);
    assert_eq!(parse_port(b"-1"), 0);
    assert_eq!(parse_port(b"007"), 7);
}
