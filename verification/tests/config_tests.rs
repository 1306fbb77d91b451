use comment_stripper::config::{Config, KnownLanguage};

fn lang(path: &str, language: &str, extension: &str, comment_types: &[&str]) -> KnownLanguage {
    KnownLanguage {
        path: path.to_string(),
        language: language.to_string(),
        extension: extension.to_string(),
        comment_types: comment_types.iter().map(|s| s.to_string()).collect(),
    }
}

#[test]
fn new_config_is_empty() {
    let config = Config::new();
    assert!(config.get("go").is_none());
    assert!(config.find_struct_by_key("go").is_none());
}

#[test]
fn get_finds_by_name() {
    let mut config = Config::new();
    config.insert("go".to_string(), lang("go.so", "go", "go", &["comment"]));
    config.insert("rust".to_string(), lang("rust.so", "rust", "rs", &["line_comment"]));
    let found = config.get("rust").expect("rust should be configured");
    assert_eq!(found.path, "rust.so");
    assert_eq!(found.extension, "rs");
    assert!(config.get("python").is_none());
}

#[test]
fn find_struct_by_key_finds_by_extension() {
    let mut config = Config::new();
    config.insert("go".to_string(), lang("go.so", "go", "go", &["comment"]));
    config.insert("rust".to_string(), lang("rust.so", "rust", "rs", &["line_comment"]));
    let found = config.find_struct_by_key("rs").expect("rs should be configured");
    assert_eq!(found.language, "rust");
    assert!(config.find_struct_by_key("py").is_none());
}

#[test]
fn first_match_wins_on_duplicate_extension() {
    let mut config = Config::new();
    config.insert("c".to_string(), lang("c.so", "c", "h", &["comment"]));
    config.insert("cpp".to_string(), lang("cpp.so", "cpp", "h", &["comment"]));
    let found = config.find_struct_by_key("h").expect("h should be configured");
    assert_eq!(found.language, "c");
}

#[test]
fn new_known_language_is_empty() {
    let empty = KnownLanguage::new();
    assert_eq!(empty.path, "");
    assert_eq!(empty.language, "");
    assert_eq!(empty.extension, "");
    assert!(empty.comment_types.is_empty());
}
