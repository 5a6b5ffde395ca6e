use secrets_manager::commands::{export_as_env, export_config, get_path, Format};
use secrets_manager::{
    AwsSecretInfo, Config, ConfigError, ConfigFileData, ConfigValue, Configuration, ContextPath,
    KeyRef, Vault, VaultKind,
};

fn key(path: &str, name: &str) -> KeyRef {
    KeyRef::new(ContextPath::new(path), name.to_string())
}

fn info(name: &str) -> VaultKind {
    VaultKind::AwsSecretManager(AwsSecretInfo::new(
        format!("arn:{}", name),
        name.to_string(),
        "v1".to_string(),
        "default".to_string(),
    ))
}

fn empty_config() -> Config {
    Config::load(ConfigFileData::default(), Vec::new())
}

fn config_with_vault() -> Config {
    let mut config = empty_config();
    let mut store: Configuration<String> = Configuration::new();
    store.set(key("/db", "password"), "hunter2".to_string());
    config
        .add_vault("main".to_string(), Vault::new(info("main"), store))
        .unwrap();
    config
}

#[test]
fn literal_set_and_get() {
    let mut config = empty_config();
    let prev = config
        .set(key("/app", "url"), ConfigValue::from_value("http://x".to_string()))
        .unwrap();
    assert!(prev.is_none());
    assert_eq!(config.get(&key("/app/sub", "url")), Some("http://x"));
    assert_eq!(config.get(&key("/other", "url")), None);
}

#[test]
fn secret_reference_resolves() {
    let mut config = config_with_vault();
    let value = ConfigValue::from_secret("main".to_string(), "db.password".to_string()).unwrap();
    config.set(key("/app", "pw"), value).unwrap();
    assert_eq!(config.get(&key("/app", "pw")), Some("hunter2"));
}

#[test]
fn guarded_secret_write() {
    let mut config = config_with_vault();
    config
        .set(key("/app", "pw"), ConfigValue::from_value("old".to_string()))
        .unwrap();
    let missing = ConfigValue::from_secret("main".to_string(), "db.user".to_string()).unwrap();
    match config.set(key("/app", "pw"), missing) {
        Err(ConfigError::SecretNotFound(vault, path)) => {
            assert_eq!(vault, "main");
            assert_eq!(path, "db.user");
        }
        other => panic!("unexpected outcome {:?}", other),
    }
    assert_eq!(config.get(&key("/app", "pw")), Some("old"));
}

#[test]
fn secret_in_unknown_vault() {
    let mut config = config_with_vault();
    let value = ConfigValue::from_secret("nope".to_string(), "db.password".to_string()).unwrap();
    match config.set(key("/app", "pw"), value) {
        Err(ConfigError::VaultNotFound(name)) => assert_eq!(name, "nope"),
        other => panic!("unexpected outcome {:?}", other),
    }
    assert_eq!(config.get(&key("/app", "pw")), None);
}

#[test]
fn vault_registry_errors() {
    let mut config = config_with_vault();
    match config.add_vault("main".to_string(), Vault::new(info("main"), Configuration::new())) {
        Err(ConfigError::VaultAlreadyExists) => {}
        other => panic!("unexpected outcome {:?}", other),
    }
    assert!(matches!(config.get_vault_name(None), Err(ConfigError::VaultNotSpecified)));
    assert_eq!(config.get_vault_name(Some("x")).unwrap(), "x");
    config.set_default_vault("main".to_string());
    assert_eq!(config.get_vault_name(None).unwrap(), "main");
    assert_eq!(config.get_vault_name(Some("other")).unwrap(), "other");
    assert!(matches!(
        config.get_secret("nope", &key("/db", "password")),
        Err(ConfigError::VaultNotFound(_))
    ));
    assert!(config.vault_exists("main"));
    assert!(!config.vault_exists("nope"));
}

#[test]
fn vault_secrets_and_dirty_tracking() {
    let mut config = config_with_vault();
    assert_eq!(config.pending_vaults(), vec!["main".to_string()]);
    config.vault_persisted("main", "v2".to_string()).unwrap();
    assert!(config.pending_vaults().is_empty());
    let VaultKind::AwsSecretManager(persisted) = config.vault("main").unwrap().into_vault_kind();
    assert_eq!(persisted.secret_version(), "v2");
    assert_eq!(
        config.remove_secret("main", &key("/db", "nothing")).unwrap(),
        None
    );
    assert!(config.pending_vaults().is_empty());
    assert_eq!(
        config
            .set_secret("main", key("/db", "user"), "admin".to_string())
            .unwrap(),
        None
    );
    assert_eq!(config.pending_vaults(), vec!["main".to_string()]);
    assert_eq!(config.get_secret("main", &key("/db/x", "user")).unwrap(), Some("admin"));
    assert_eq!(
        config.remove_secret("main", &key("/db", "user")).unwrap(),
        Some("admin".to_string())
    );
    assert!(matches!(
        config.vault_persisted("nope", "v3".to_string()),
        Err(ConfigError::VaultNotFound(_))
    ));
}

#[test]
fn unresolved_secret_shows_placeholder() {
    let mut config = config_with_vault();
    let value = ConfigValue::from_secret("main".to_string(), "db.password".to_string()).unwrap();
    config.set(key("/app", "pw"), value).unwrap();
    config.set(key("/app", "host"), ConfigValue::from_value("h".to_string())).unwrap();
    config.remove_secret("main", &key("/db", "password")).unwrap();
    let mut all: Vec<(String, String)> = config
        .get_all(&ContextPath::new("/app"))
        .into_iter()
        .map(|(k, v)| (k.clone(), v))
        .collect();
    all.sort();
    assert_eq!(
        all,
        vec![
            ("host".to_string(), "h".to_string()),
            ("pw".to_string(), "secret [main::db.password]".to_string()),
        ]
    );
    assert_eq!(config.get(&key("/app", "pw")), None);
}

#[test]
fn save_then_load() {
    let mut config = config_with_vault();
    config.set_default_vault("main".to_string());
    config.set_current_context(ContextPath::new("/dev"));
    config
        .set(key("/app", "url"), ConfigValue::from_value("u".to_string()))
        .unwrap();
    let before = config.display();
    let vault_tree = config.display_vault("main").unwrap();
    let mut stores = Vec::new();
    let mut s: Configuration<String> = Configuration::new();
    s.set(key("/db", "password"), "hunter2".to_string());
    stores.push(s);
    let data = config.save();
    let loaded = Config::load(data, stores);
    assert_eq!(loaded.display(), before);
    assert_eq!(loaded.display_vault("main").unwrap(), vault_tree);
    assert_eq!(loaded.get_current_context().to_text(), "/dev");
    assert_eq!(loaded.get_vault_name(None).unwrap(), "main");
    assert_eq!(loaded.get(&key("/app", "url")), Some("u"));
    assert!(loaded.pending_vaults().is_empty());
    let kind = loaded.vault("main").unwrap().into_vault_kind();
    let VaultKind::AwsSecretManager(i) = kind;
    assert_eq!(i.secret_id(), "arn:main");
    assert_eq!(i.profile_name(), "default");
}

#[test]
fn config_error_messages() {
    assert_eq!(ConfigError::VaultNotFound("a".to_string()).to_string(), "Vault a not found");
    assert_eq!(
        ConfigError::SecretNotFound("v".to_string(), "db.pw".to_string()).to_string(),
        "Secret db.pw not found for vault v"
    );
    assert_eq!(ConfigError::VaultAlreadyExists.to_string(), "Vault already exists!");
}

#[test]
fn export_formats() {
    let mut config = empty_config();
    config.set(key("/", "a"), ConfigValue::from_value("1".to_string())).unwrap();
    config.set(key("/x", "b"), ConfigValue::from_value("two".to_string())).unwrap();
    let path = ContextPath::new("/x");
    let env = export_config(&config, &path, Format::EnvFile);
    assert_eq!(env, "a=\"1\"\nb=\"two\"\n");
    let json = export_config(&config, &path, Format::Json);
    assert_eq!(json, "{\"a\":\"1\",\"b\":\"two\"}");
    let a = "k".to_string();
    assert_eq!(export_as_env(&vec![(&a, "v".to_string())]), "k=\"v\"\n");
    assert_eq!(Format::default(), Format::EnvFile);
}

#[test]
fn working_context() {
    let mut config = empty_config();
    assert_eq!(get_path(&config, "project").to_text(), "/project");
    config.set_current_context(ContextPath::new("dev/eu"));
    assert_eq!(get_path(&config, "project").to_text(), "/project/dev/eu");
}

#[test]
fn vault_tree_and_missing_vault() {
    let config = config_with_vault();
    assert_eq!(
        config.display_vault("main").unwrap(),
        "/\n\u{2514}\u{2500}db\n  \u{2514}\u{2500}password: hunter2\n"
    );
    assert!(matches!(config.display_vault("x"), Err(ConfigError::VaultNotFound(_))));
    let all = config.get_all_secrets("main", &ContextPath::new("/db/deeper")).unwrap();
    assert_eq!(all.len(), 1);
    assert_eq!(all[0].0, "password");
    assert_eq!(all[0].1, "hunter2");
}

#[test]
fn config_display_shows_placeholders() {
    let mut config = config_with_vault();
    let value = ConfigValue::from_secret("main".to_string(), "db.password".to_string()).unwrap();
    config.set(key("/app", "pw"), value).unwrap();
    assert_eq!(
        config.display(),
        "/\n\u{2514}\u{2500}app\n  \u{2514}\u{2500}pw: secret [main::db.password]\n"
    );
}

#[test]
fn import_env_into_config() {
    let mut config = config_with_vault();
    let lines = vec!["url=\"http://h\"".to_string(), "db.name=main # primary".to_string()];
    config.import_env(&lines, &ContextPath::new("/proj")).unwrap();
    assert_eq!(config.get(&key("/proj", "url")), Some("http://h"));
    assert_eq!(config.get(&key("/proj/db/x", "name")), Some("main "));
    assert_eq!(config.pending_vaults(), vec!["main".to_string()]);
    let bad = vec![".=1".to_string()];
    assert_eq!(
        config.import_env(&bad, &ContextPath::new("/proj")).unwrap_err(),
        "key cannot be empty"
    );
}
