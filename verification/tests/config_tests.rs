use glasscannon::config::{config_from_toml, TomlValue};
use glasscannon::server::LogLevel;

fn sample_document() -> TomlValue {
    let server = TomlValue::Table(vec![
        ("port".to_string(), TomlValue::Integer(8080)),
        ("resources".to_string(), TomlValue::Text("./www/".to_string())),
        (
            "preload".to_string(),
            TomlValue::Array(vec![
                TomlValue::Text("/index.html".to_string()),
                TomlValue::Integer(7),
                TomlValue::Text("/404.html".to_string()),
            ]),
        ),
        ("loglevel".to_string(), TomlValue::Text("debug".to_string())),
    ]);
    let mimetypes = TomlValue::Table(vec![
        (
            "text/html".to_string(),
            TomlValue::Array(vec![
                TomlValue::Text("html".to_string()),
                TomlValue::Text("htm".to_string()),
            ]),
        ),
        (
            "image/png".to_string(),
            TomlValue::Array(vec![TomlValue::Text("png".to_string())]),
        ),
    ]);
    TomlValue::Table(vec![
        ("server".to_string(), server),
        ("mimetypes".to_string(), mimetypes),
    ])
}

#[test]
fn config_reads_all_fields() {
    let config = config_from_toml(&sample_document());
    assert_eq!(config.port, 8080);
    assert_eq!(config.resources, "./www/");
    assert_eq!(
        config.preload,
        vec!["/index.html".to_string(), "/404.html".to_string()]
    );
    assert_eq!(config.loglevel, LogLevel::Debug);
    // Newest entries sit in front; the table maps extension to type.
    assert_eq!(
        config.mimetypes,
        vec![
            ("png".to_string(), "image/png".to_string()),
            ("htm".to_string(), "text/html".to_string()),
            ("html".to_string(), "text/html".to_string()),
        ]
    );
}

#[test]
fn config_defaults_when_fields_are_absent() {
    let config = config_from_toml(&TomlValue::Table(vec![]));
    assert_eq!(config.port, 15000);
    assert_eq!(config.resources, "./res/");
    assert!(config.preload.is_empty());
    assert!(config.mimetypes.is_empty());
    assert_eq!(config.loglevel, LogLevel::Info);
}

#[test]
fn config_defaults_on_wrong_shapes() {
    let server = TomlValue::Table(vec![
        ("port".to_string(), TomlValue::Text("eighty".to_string())),
        ("resources".to_string(), TomlValue::Integer(3)),
    ]);
    let config = config_from_toml(&TomlValue::Table(vec![(
        "server".to_string(),
        server,
    )]));
    assert_eq!(config.port, 15000);
    assert_eq!(config.resources, "./res/");
}

#[test]
fn loglevel_names() {
    for (name, level) in [
        ("off", LogLevel::Off),
        ("error", LogLevel::Error),
        ("warn", LogLevel::Warn),
        ("info", LogLevel::Info),
        ("debug", LogLevel::Debug),
        ("trace", LogLevel::Trace),
        ("all", LogLevel::Trace),
        ("loud", LogLevel::Info),
    ] {
        let server = TomlValue::Table(vec![(
            "loglevel".to_string(),
            TomlValue::Text(name.to_string()),
        )]);
        let config =
            config_from_toml(&TomlValue::Table(vec![("server".to_string(), server)]));
        assert_eq!(config.loglevel, level, "level name {}", name);
    }
}
