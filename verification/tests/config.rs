use organiza::{
    expand_home, loads_config_file, needs_downloads_detection, prepare_loaded_config,
    resolve_config, validate_config, CategoryRule, Config, ConfigError, ConflictPolicy, Platform,
};

fn rule(name: &str, extensions: &[&str]) -> CategoryRule {
    CategoryRule {
        name: name.to_string(),
        extensions: extensions.iter().map(|e| e.to_string()).collect(),
        replace: false,
    }
}

#[test]
fn config_default_values() {
    let c = Config::default();
    assert!(c.source_directories.is_empty());
    assert!(!c.recursive);
    assert_eq!(c.on_conflict, ConflictPolicy::Rename);
    assert_eq!(c.min_age_seconds, 60);
    assert!(c.ignore_hidden);
    assert_eq!(c.log_file, None);
    assert!(c.extensions.is_empty());
    assert!(c.categories.is_empty());
    assert_eq!(ConflictPolicy::default(), ConflictPolicy::Rename);
}

#[test]
fn category_name_absolute_or_parent_traversal_rejected() {
    for bad in ["/etc/passwd", "../escape", "Sub/../Other"] {
        let mut config = Config::default();
        config.categories.push(rule(bad, &["x"]));
        let result = prepare_loaded_config(config, "/home/u", Platform::host());
        assert!(
            result.is_err(),
            "expected load_config to reject category name '{}'",
            bad
        );
        let message = result.unwrap_err().message();
        assert!(message.contains(bad), "message must name the value: {}", message);
    }
}

#[test]
fn category_with_empty_extensions_rejected() {
    let mut config = Config::default();
    config.categories.push(rule("EmptyCat", &[]));
    assert!(prepare_loaded_config(config, "/home/u", Platform::host()).is_err());
}

#[test]
fn duplicate_category_name_rejected() {
    let mut config = Config::default();
    config.categories.push(rule("Text", &["a"]));
    config.categories.push(rule("Text", &["b"]));
    assert!(prepare_loaded_config(config, "/home/u", Platform::host()).is_err());
}

#[test]
fn validate_config_reports_each_problem() {
    let p = Platform::Posix;
    let mut c = Config::default();
    c.source_directories.push("/ok".to_string());
    c.source_directories.push(String::new());
    assert_eq!(validate_config(&c, p), Err(ConfigError::EmptySourceDirectory));

    let mut c = Config::default();
    c.insert_extension("md".to_string(), " ".to_string());
    assert_eq!(validate_config(&c, p), Err(ConfigError::EmptyExtensionOverride));

    let mut c = Config::default();
    c.insert_extension("".to_string(), "Docs".to_string());
    assert_eq!(validate_config(&c, p), Err(ConfigError::EmptyExtensionOverride));

    let mut c = Config::default();
    c.insert_extension("md".to_string(), "a/../b".to_string());
    assert_eq!(
        validate_config(&c, p),
        Err(ConfigError::UnsafeOverrideCategory("a/../b".to_string()))
    );

    // Category rules are checked before source directories.
    let mut c = Config::default();
    c.source_directories.push(String::new());
    c.categories.push(rule("", &["x"]));
    assert_eq!(validate_config(&c, p), Err(ConfigError::EmptyCategoryName));

    let mut c = Config::default();
    c.source_directories.push("/srv/inbox".to_string());
    c.categories.push(rule("Design", &["psd"]));
    c.insert_extension("md".to_string(), "Docs".to_string());
    assert_eq!(validate_config(&c, p), Ok(()));
}

#[test]
fn error_messages_name_the_value() {
    assert_eq!(
        ConfigError::UnsafeCategoryName("/etc".to_string()).message(),
        "category name '/etc' is not a safe folder name (absolute path or '..' segment)"
    );
    assert_eq!(
        ConfigError::EmptyCategoryExtensions("EmptyCat".to_string()).message(),
        "category 'EmptyCat' has empty extensions list"
    );
    assert_eq!(
        ConfigError::DuplicateCategoryName("Text".to_string()).message(),
        "duplicate category name 'Text' across [[categories]] rules"
    );
    assert_eq!(ConfigError::EmptyCategoryName.message(), "category name cannot be empty");
    assert_eq!(
        ConfigError::EmptySourceDirectory.message(),
        "source_directories contiene una ruta vac\u{ed}a"
    );
}

#[test]
fn expand_home_forms() {
    let p = Platform::Posix;
    assert_eq!(expand_home("~", "/home/u", p), "/home/u");
    assert_eq!(expand_home("~/Downloads", "/home/u", p), "/home/u/Downloads");
    assert_eq!(expand_home("~/Downloads", "/home/u/", p), "/home/u/Downloads");
    assert_eq!(expand_home("~//abs", "/home/u", p), "/abs");
    assert_eq!(expand_home("~user/x", "/home/u", p), "~user/x");
    assert_eq!(expand_home("/srv/inbox", "/home/u", p), "/srv/inbox");
    assert_eq!(expand_home("~/", "/home/u", p), "/home/u/");
}

#[test]
fn expand_home_joins_with_windows_separators() {
    let w = Platform::Windows;
    assert_eq!(expand_home("~", "C:\\Users\\u", w), "C:\\Users\\u");
    assert_eq!(expand_home("~/Downloads", "C:\\Users\\u", w), "C:\\Users\\u\\Downloads");
    assert_eq!(expand_home("~/a/b", "C:\\Users\\u", w), "C:\\Users\\u\\a/b");
    assert_eq!(expand_home("~/Downloads", "C:\\Users\\u\\", w), "C:\\Users\\u\\Downloads");
    // A rooted rest keeps only the drive of the home directory.
    assert_eq!(expand_home("~/\\data", "C:\\Users\\u", w), "C:\\data");
    // A rest with a drive of its own replaces the home directory.
    assert_eq!(expand_home("~/D:\\x", "C:\\Users\\u", w), "D:\\x");
    assert_eq!(expand_home("~\\Downloads", "C:\\Users\\u", w), "~\\Downloads");
}

#[test]
fn prepare_loaded_config_expands_home() {
    let mut config = Config::default();
    config.source_directories.push("~/Downloads".to_string());
    config.source_directories.push("/srv/inbox".to_string());
    config.log_file = Some("~/organiza.log".to_string());
    let c = prepare_loaded_config(config, "/home/u", Platform::Posix).unwrap();
    assert_eq!(
        c.source_directories,
        vec!["/home/u/Downloads".to_string(), "/srv/inbox".to_string()]
    );
    assert_eq!(c.log_file, Some("/home/u/organiza.log".to_string()));
}

#[test]
fn missing_default_config_uses_config_default_and_autodetect() {
    assert!(!loads_config_file(false, false));
    let config = Config::default();
    assert!(needs_downloads_detection(&config, &[]));
    let downloads = "/tmp/x/Downloads".to_string();
    let config = resolve_config(config, &[], Some(downloads.clone()));
    assert_eq!(config.source_directories, vec![downloads]);
}

#[test]
fn explicit_missing_config_path_still_errors() {
    // An explicit --config is always read, so a missing file surfaces the
    // read error instead of the first-run default.
    assert!(loads_config_file(true, false));
    assert!(loads_config_file(true, true));
    assert!(loads_config_file(false, true));
}

#[test]
fn configured_sources_win_over_env_and_detection() {
    let mut config = Config::default();
    config.source_directories.push("/srv/inbox".to_string());
    assert!(!needs_downloads_detection(&config, &[]));
    let config = resolve_config(config, &[], Some("/tmp/env-dl".to_string()));
    assert_eq!(config.source_directories, vec!["/srv/inbox".to_string()]);
}

#[test]
fn positional_directories_override_config_and_detection() {
    let mut config = Config::default();
    config.source_directories.push("/srv/inbox".to_string());
    let positional = vec!["/cli/arg".to_string()];
    assert!(!needs_downloads_detection(&config, &positional));
    let config = resolve_config(config, &positional, Some("/tmp/env-dl".to_string()));
    assert_eq!(config.source_directories, vec!["/cli/arg".to_string()]);
}

#[test]
fn no_sources_and_nothing_detected_stays_empty() {
    let config = resolve_config(Config::default(), &[], None);
    assert!(config.source_directories.is_empty());
    assert_eq!(config.min_age_seconds, 60);
}

#[test]
fn insert_extension_replaces_same_key() {
    let mut c = Config::default();
    c.insert_extension("md".to_string(), "Docs".to_string());
    c.insert_extension("pdf".to_string(), "Inbox".to_string());
    c.insert_extension("md".to_string(), "Notes".to_string());
    assert_eq!(
        c.extensions,
        vec![
            ("md".to_string(), "Notes".to_string()),
            ("pdf".to_string(), "Inbox".to_string())
        ]
    );
}

#[test]
fn prepare_loaded_config_expands_home_on_windows() {
    let mut config = Config::default();
    config.source_directories.push("~/Downloads".to_string());
    config.log_file = Some("~/organiza.log".to_string());
    let c = prepare_loaded_config(config, "C:\\Users\\u", Platform::Windows).unwrap();
    assert_eq!(c.source_directories, vec!["C:\\Users\\u\\Downloads".to_string()]);
    assert_eq!(c.log_file, Some("C:\\Users\\u\\organiza.log".to_string()));
}
