use ec_core::config::{RememberedConfig, PASSWORD_REQUIRED};
use ec_core::AppConfig;

#[test]
fn resolve_without_remember_requires_server() {
    let result = AppConfig::resolve(
        None,
        Some("alice".into()),
        "secret".into(),
        "127.0.0.1:1080".into(),
        None,
        vec![],
        false,
        false,
        None,
    );
    assert!(result.config.is_err());
    assert!(result.remember.is_none());
}

#[test]
fn resolve_without_remember_requires_username() {
    let result = AppConfig::resolve(
        Some("vpn.example.com:443".into()),
        None,
        "secret".into(),
        "127.0.0.1:1080".into(),
        None,
        vec![],
        false,
        false,
        None,
    );
    assert!(result.config.is_err());
}

#[test]
fn resolve_without_remember_accepts_explicit_args() {
    let result = AppConfig::resolve(
        Some("vpn.example.com:443".into()),
        Some("alice".into()),
        "secret".into(),
        "127.0.0.1:1080".into(),
        None,
        vec![],
        false,
        false,
        None,
    );
    assert!(result.config.is_ok());
    let cfg = result.config.unwrap();
    assert_eq!(cfg.server, "vpn.example.com:443");
    assert_eq!(cfg.username, "alice");
    assert!(result.remember.is_none());
}

#[test]
fn resolve_without_remember_ignores_saved_values() {
    let result = AppConfig::resolve(
        None,
        None,
        "secret".into(),
        "127.0.0.1:1080".into(),
        None,
        vec![],
        false,
        false,
        Some(RememberedConfig { server: "saved.example.com".into(), username: "saved_user".into() }),
    );
    assert_eq!(
        result.config.unwrap_err().to_string(),
        "invalid config: server is required"
    );
}

#[test]
fn resolve_with_remember_explicit_args_saves_file() {
    let result = AppConfig::resolve(
        Some("vpn.example.com:443".into()),
        Some("alice".into()),
        "secret".into(),
        "127.0.0.1:1080".into(),
        None,
        vec![],
        false,
        true,
        None,
    );
    assert!(result.config.is_ok());
    let saved = result.remember.unwrap();
    assert_eq!(saved.server, "vpn.example.com:443");
    assert_eq!(saved.username, "alice");
}

#[test]
fn resolve_with_remember_reads_saved_file() {
    let result = AppConfig::resolve(
        None,
        None,
        "secret".into(),
        "127.0.0.1:1080".into(),
        None,
        vec![],
        false,
        true,
        Some(RememberedConfig { server: "saved.example.com".into(), username: "saved_user".into() }),
    );
    let cfg = result.config.unwrap();
    assert_eq!(cfg.server, "saved.example.com");
    assert_eq!(cfg.username, "saved_user");
}

#[test]
fn resolve_with_remember_args_override_saved() {
    let result = AppConfig::resolve(
        Some("override.example.com".into()),
        None,
        "secret".into(),
        "127.0.0.1:1080".into(),
        None,
        vec![],
        false,
        true,
        Some(RememberedConfig { server: "saved.example.com".into(), username: "saved_user".into() }),
    );
    let cfg = result.config.unwrap();
    assert_eq!(cfg.server, "override.example.com");
    assert_eq!(cfg.username, "saved_user");
    assert_eq!(result.remember.unwrap().server, "override.example.com");
}

#[test]
fn resolve_with_remember_saves_even_if_the_password_is_missing() {
    let result = AppConfig::resolve(
        Some(" vpn.example.com ".into()),
        Some("alice".into()),
        "".into(),
        "127.0.0.1:1080".into(),
        None,
        vec![],
        false,
        true,
        None,
    );
    assert!(result.config.is_err());
    assert_eq!(result.remember.unwrap().server, " vpn.example.com ");
}

#[test]
fn resolve_with_remember_still_needs_a_username() {
    let result = AppConfig::resolve(
        Some("vpn.example.com".into()),
        None,
        "secret".into(),
        "127.0.0.1:1080".into(),
        None,
        vec![],
        false,
        true,
        None,
    );
    assert_eq!(
        result.config.unwrap_err().to_string(),
        "invalid config: username is required"
    );
    assert!(result.remember.is_none());
}

#[test]
fn accepts_valid_config() {
    let result = AppConfig::new(
        "vpn.example.com:443".to_string(),
        "alice".to_string(),
        "secret".to_string(),
        "127.0.0.1:1080".to_string(),
        None,
        vec![],
        false,
    );
    assert!(result.is_ok());
}

#[test]
fn rejects_empty_server() {
    let result = AppConfig::new(
        "".to_string(),
        "alice".to_string(),
        "secret".to_string(),
        "127.0.0.1:1080".to_string(),
        None,
        vec![],
        false,
    );
    assert!(result.is_err());
}

#[test]
fn rejects_blank_username_and_bind() {
    let no_user = AppConfig::new(
        "vpn".to_string(),
        " \t".to_string(),
        "secret".to_string(),
        "127.0.0.1:1080".to_string(),
        None,
        vec![],
        false,
    );
    assert_eq!(no_user.unwrap_err().to_string(), "invalid config: username is required");
    let no_bind = AppConfig::new(
        "vpn".to_string(),
        "alice".to_string(),
        "secret".to_string(),
        "\u{3000}".to_string(),
        None,
        vec![],
        false,
    );
    assert_eq!(no_bind.unwrap_err().to_string(), "invalid config: bind is required");
}

#[test]
fn password_error_points_to_supported_inputs() {
    let err = AppConfig::new(
        "vpn.example.com:443".to_string(),
        "alice".to_string(),
        "".to_string(),
        "127.0.0.1:1080".to_string(),
        None,
        vec![],
        false,
    )
    .unwrap_err()
    .to_string();

    assert!(err.contains("--password"));
    assert!(err.contains("SHIEP_PIPELINE_PASSWORD"));
    assert_eq!(err, format!("invalid config: {PASSWORD_REQUIRED}"));
}

#[test]
fn trims_empty_fallback_proxy_to_none() {
    let cfg = AppConfig::new(
        "vpn.example.com:443".to_string(),
        "alice".to_string(),
        "secret".to_string(),
        "127.0.0.1:1080".to_string(),
        Some("   ".to_string()),
        vec![],
        false,
    )
    .unwrap();
    assert!(cfg.fallback_proxy.is_none());
}

#[test]
fn trims_fallback_proxy_and_keeps_password() {
    let cfg = AppConfig::new(
        "vpn.example.com:443".to_string(),
        "alice".to_string(),
        " secret ".to_string(),
        "127.0.0.1:1080".to_string(),
        Some(" http://127.0.0.1:8080 ".to_string()),
        vec![],
        true,
    )
    .unwrap();
    assert_eq!(cfg.fallback_proxy.as_deref(), Some("http://127.0.0.1:8080"));
    assert_eq!(cfg.password, " secret ");
    assert!(cfg.details);
    assert!(cfg.validate().is_ok());
}

#[test]
fn trims_server_username_and_bind() {
    let cfg = AppConfig::new(
        "  vpn.example.com:443  ".to_string(),
        "  alice  ".to_string(),
        "secret".to_string(),
        " 127.0.0.1:1080 ".to_string(),
        None,
        vec![],
        false,
    )
    .unwrap();
    assert_eq!(cfg.server, "vpn.example.com:443");
    assert_eq!(cfg.username, "alice");
    assert_eq!(cfg.socks_bind, "127.0.0.1:1080");
}

#[test]
fn trims_and_filters_empty_extra_ips() {
    let cfg = AppConfig::new(
        "vpn.example.com:443".to_string(),
        "alice".to_string(),
        "secret".to_string(),
        "127.0.0.1:1080".to_string(),
        None,
        vec![
            " 10.50.2.206 ".to_string(),
            "   ".to_string(),
            "10.50.2.0/24".to_string(),
        ],
        false,
    )
    .unwrap();
    assert_eq!(cfg.extra_ips, vec!["10.50.2.206", "10.50.2.0/24"]);
}
