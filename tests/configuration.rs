use secrets_manager::{ContextPath, Configuration, KeyRef};

fn key(path: &str, name: &str) -> KeyRef {
    KeyRef::new(ContextPath::new(path), name.to_string())
}

fn get_config() -> Configuration<String> {
    let mut config = Configuration::new();
    config.set(key("/", "foo"), "bar1".to_string());
    config.set(key("/", "fem"), "is_great".to_string());
    config.set(key("/foo", "foo"), "bar2".to_string());
    config.set(key("/foo/bar", "foo"), "bar3".to_string());
    config
}

fn sorted(pairs: Vec<(&String, &String)>) -> Vec<(String, String)> {
    let mut v: Vec<(String, String)> = pairs
        .into_iter()
        .map(|(k, v)| (k.clone(), v.clone()))
        .collect();
    v.sort();
    v
}

#[test]
fn get_all_values() {
    let config = get_config();
    let all_values = config.get_all(&ContextPath::new("/foo/bar"));
    assert_eq!(
        sorted(all_values),
        vec![
            ("fem".to_string(), "is_great".to_string()),
            ("foo".to_string(), "bar3".to_string()),
        ]
    );
}

#[test]
fn add_value() {
    let mut config = get_config();
    config.set(key("/foo/bar", "uri"), "foo".to_string());
    let result = config.get(&key("/foo/bar", "uri")).unwrap();
    assert_eq!(result, "foo");
}

#[test]
fn get_value() {
    let config = get_config();
    assert_eq!(config.get(&key("/foo/bar", "foo")), Some(&String::from("bar3")));
    assert_eq!(config.get(&key("/foo/bar", "fem")), Some(&String::from("is_great")));
    assert_eq!(config.get(&key("/foo", "foo")), Some(&String::from("bar2")));
    assert_eq!(config.get(&key("/", "foo")), Some(&String::from("bar1")));
}

#[test]
fn remove_value() {
    let mut config = get_config();
    let res = config.remove(&key("/foo/bar", "foo")).unwrap();
    assert_eq!(res, String::from("bar3"));
    assert_eq!(config.get(&key("/foo/bar", "foo")), Some(&String::from("bar2")));
}

#[test]
fn write_then_read() {
    let mut config: Configuration<String> = Configuration::new();
    assert_eq!(config.set(key("/a/b", "k"), "v1".to_string()), None);
    assert_eq!(config.get(&key("/a/b", "k")), Some(&"v1".to_string()));
    assert_eq!(config.set(key("/a/b", "k"), "v2".to_string()), Some("v1".to_string()));
    assert_eq!(config.get(&key("/a/b", "k")), Some(&"v2".to_string()));
}

#[test]
fn ancestor_fallback() {
    let mut config: Configuration<String> = Configuration::new();
    config.set(key("/", "x"), "1".to_string());
    config.set(key("/a", "x"), "2".to_string());
    assert_eq!(config.get(&key("/a/b", "x")), Some(&"2".to_string()));
    assert_eq!(config.get(&key("/c", "x")), Some(&"1".to_string()));
    assert_eq!(config.get(&key("/", "y")), None);
}

#[test]
fn override_fold() {
    let mut config: Configuration<String> = Configuration::new();
    config.set(key("/", "foo"), "bar1".to_string());
    config.set(key("/", "fem"), "great".to_string());
    config.set(key("/foo", "foo"), "bar2".to_string());
    config.set(key("/foo/bar", "foo"), "bar3".to_string());
    let all = config.get_all(&ContextPath::new("/foo/bar"));
    assert_eq!(
        sorted(all),
        vec![
            ("fem".to_string(), "great".to_string()),
            ("foo".to_string(), "bar3".to_string()),
        ]
    );
}

#[test]
fn get_all_of_missing_contexts_is_empty() {
    let config: Configuration<String> = Configuration::new();
    assert!(config.get_all(&ContextPath::new("/nothing/here")).is_empty());
}

#[test]
fn remove_falls_back_to_ancestor() {
    let mut config = get_config();
    assert_eq!(config.remove(&key("/foo/bar", "foo")), Some("bar3".to_string()));
    assert_eq!(config.get(&key("/foo/bar", "foo")), Some(&"bar2".to_string()));
    assert_eq!(config.get(&key("/foo", "foo")), Some(&"bar2".to_string()));
    assert_eq!(config.remove(&key("/foo/bar", "foo")), None);
}

#[test]
fn remove_missing_key() {
    let mut config = get_config();
    assert_eq!(config.remove(&key("/nowhere", "foo")), None);
    assert_eq!(config.remove(&key("/foo", "fem")), None);
    assert_eq!(config.get(&key("/foo", "fem")), Some(&"is_great".to_string()));
}

#[test]
fn keys_respect_segment_prefixes() {
    let mut config: Configuration<String> = Configuration::new();
    config.set(key("/foo", "a"), "1".to_string());
    config.set(key("/foo/bar", "b"), "2".to_string());
    config.set(key("/foobar", "c"), "3".to_string());
    let mut listed: Vec<String> = config
        .keys(&ContextPath::new("/foo"))
        .iter()
        .map(|k| k.to_string())
        .collect();
    listed.sort();
    assert_eq!(listed, vec!["foo.a".to_string(), "foo.bar.b".to_string()]);
    let all = config.keys(&ContextPath::new("/"));
    assert_eq!(all.len(), 3);
}

#[test]
fn is_empty_tracks_contexts() {
    let mut config: Configuration<String> = Configuration::new();
    assert!(config.is_empty());
    config.set(key("/a", "k"), "v".to_string());
    assert!(!config.is_empty());
    config.remove(&key("/a", "k"));
    assert!(!config.is_empty());
}

#[test]
fn display_draws_tree() {
    let config = get_config();
    assert_eq!(
        config.display(),
        "/\n\u{251C}\u{2500}foo: bar1\n\u{251C}\u{2500}fem: is_great\n\u{2514}\u{2500}foo\n  \u{251C}\u{2500}foo: bar2\n  \u{2514}\u{2500}bar\n    \u{2514}\u{2500}foo: bar3\n"
    );
}

#[test]
fn display_with_siblings_and_inner_nodes() {
    let mut config: Configuration<String> = Configuration::new();
    config.set(key("/a/x", "k1"), "v1".to_string());
    config.set(key("/b", "k2"), "v2".to_string());
    assert_eq!(
        config.display(),
        "/\n\u{251C}\u{2500}a\n\u{2502} \u{2514}\u{2500}x\n\u{2502}   \u{2514}\u{2500}k1: v1\n\u{2514}\u{2500}b\n  \u{2514}\u{2500}k2: v2\n"
    );
}

#[test]
fn display_of_empty_store() {
    let config: Configuration<String> = Configuration::new();
    assert_eq!(config.display(), "");
}

#[test]
fn keys_list_each_entry_once() {
    let mut c: Configuration<String> = Configuration::new();
    c.set(key("/foobar", "x"), "1".to_string());
    c.set(key("/foo", "y"), "2".to_string());
    c.set(key("/foo/bar", "z"), "3".to_string());
    let mut listed: Vec<String> = c
        .keys(&ContextPath::new("/foo"))
        .iter()
        .map(|k| k.to_string())
        .collect();
    listed.sort();
    assert_eq!(listed, vec!["foo.bar.z".to_string(), "foo.y".to_string()]);
}

#[test]
fn display_single_root_key() {
    let mut c: Configuration<String> = Configuration::new();
    c.set(key("/", "a"), "1".to_string());
    assert_eq!(c.display(), "/\n\u{2514}\u{2500}a: 1\n");
}

#[test]
fn display_shares_root_node() {
    let mut c: Configuration<String> = Configuration::new();
    c.set(key("/", "a"), "1".to_string());
    c.set(key("/foo", "b"), "2".to_string());
    assert_eq!(
        c.display(),
        "/\n\u{251C}\u{2500}a: 1\n\u{2514}\u{2500}foo\n  \u{2514}\u{2500}b: 2\n"
    );
}
