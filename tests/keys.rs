use secrets_manager::commands::parse_key_ref;
use secrets_manager::{ConfigValue, ContextPath, KeyRef};

#[test]
fn parse_and_render_round_trip() {
    let k = KeyRef::parse("prod.db.password").unwrap();
    assert_eq!(k.to_string(), "prod.db.password");
    assert_eq!(k.key(), "password");
    assert_eq!(k.path().to_text(), "/prod/db");
    let again = KeyRef::parse(&k.to_string()).unwrap();
    assert_eq!(again.to_string(), k.to_string());
}

#[test]
fn parse_normalizes_separators() {
    assert_eq!(KeyRef::parse(".a..b.c").unwrap().to_string(), "a.b.c");
    assert_eq!(KeyRef::parse("db").unwrap().to_string(), ".db");
    assert_eq!(KeyRef::parse(".db").unwrap().path().to_text(), "/");
}

#[test]
fn parse_failures() {
    assert_eq!(KeyRef::parse("").unwrap_err(), "key cannot be empty");
    assert_eq!(KeyRef::parse(".").unwrap_err(), "key cannot be empty");
    assert_eq!(KeyRef::parse("a.b.").unwrap_err(), "key cannot be empty");
}

#[test]
fn parse_relative_to_context() {
    let k = parse_key_ref("db.password", &ContextPath::new("/work/dev")).unwrap();
    assert_eq!(k.path().to_text(), "/work/dev/db");
    assert_eq!(k.key(), "password");
    assert!(parse_key_ref("", &ContextPath::new("/work")).is_err());
}

#[test]
fn context_paths() {
    assert_eq!(ContextPath::new("/a//b/").to_text(), "/a/b");
    assert_eq!(ContextPath::new("").to_text(), "/");
    assert!(ContextPath::new("/foo/bar").starts_with(&ContextPath::new("/foo")));
    assert!(!ContextPath::new("/foobar").starts_with(&ContextPath::new("/foo")));
    assert!(ContextPath::new("a/b") == ContextPath::new("/a/b"));
}

#[test]
fn value_placeholder_text() {
    let v = ConfigValue::from_secret("main".to_string(), "db.password".to_string()).unwrap();
    assert_eq!(v.to_string(), "secret [main::db.password]");
    assert_eq!(ConfigValue::from_value("plain".to_string()).to_string(), "plain");
    assert!(ConfigValue::from_secret("main".to_string(), "".to_string()).is_err());
    match ConfigValue::default() {
        ConfigValue::Value(s) => assert_eq!(s, ""),
        ConfigValue::Secret(_, _) => panic!("default is a literal"),
    }
}

#[test]
fn parse_through_from_str() {
    let k: KeyRef = "app.url".parse().unwrap();
    assert_eq!(k.to_string(), "app.url");
    assert!("".parse::<KeyRef>().is_err());
}

#[test]
fn key_as_context() {
    let k = KeyRef::parse("a.b").unwrap();
    assert_eq!(k.as_context().to_text(), "/a/b");
}

#[test]
fn from_str_matches_parse() {
    assert_eq!("".parse::<KeyRef>().unwrap_err(), "key cannot be empty");
    assert_eq!(".".parse::<KeyRef>().unwrap_err(), "key cannot be empty");
    assert_eq!("a.".parse::<KeyRef>().unwrap_err(), "key cannot be empty");
    let k: KeyRef = "db.password".parse().unwrap();
    assert_eq!(k.path().to_text(), "/db");
    assert_eq!(k.key(), "password");
    let root: KeyRef = "password".parse().unwrap();
    assert_eq!(root.path().to_text(), "/");
}
