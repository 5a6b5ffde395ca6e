use secrets_manager::commands::{parse_env_line, read_from_env};
use secrets_manager::{ConfigValue, Configuration, ContextPath, KeyRef};

#[test]
fn env_line_forms() {
    assert_eq!(
        parse_env_line("DB_URL=\"postgres://h\" # main db"),
        Some(("DB_URL".to_string(), "postgres://h ".to_string()))
    );
    assert_eq!(
        parse_env_line("a.b=x=y"),
        Some(("a.b".to_string(), "x=y".to_string()))
    );
    assert_eq!(parse_env_line("# only a comment"), None);
    assert_eq!(parse_env_line("no separator"), None);
    assert_eq!(parse_env_line("k=# value gone"), Some(("k".to_string(), "".to_string())));
}

#[test]
fn import_env_lines() {
    let mut config: Configuration<ConfigValue> = Configuration::new();
    let lines = vec![
        "HOST=\"example\"".to_string(),
        "# comment".to_string(),
        "db.port=5432".to_string(),
        "HOST=override".to_string(),
    ];
    let path = ContextPath::new("/proj");
    read_from_env(&lines, &path, &mut config).unwrap();
    let host = KeyRef::new(ContextPath::new("/proj"), "HOST".to_string());
    match config.get(&host) {
        Some(ConfigValue::Value(v)) => assert_eq!(v, "override"),
        other => panic!("unexpected {:?}", other),
    }
    let port = KeyRef::new(ContextPath::new("/proj/db"), "port".to_string());
    match config.get(&port) {
        Some(ConfigValue::Value(v)) => assert_eq!(v, "5432"),
        other => panic!("unexpected {:?}", other),
    }
}

#[test]
fn import_rejects_empty_key() {
    let mut config: Configuration<ConfigValue> = Configuration::new();
    let lines = vec!["ok=1".to_string(), "bad.=2".to_string()];
    let err = read_from_env(&lines, &ContextPath::new("/"), &mut config).unwrap_err();
    assert_eq!(err, "key cannot be empty");
}
