use organiza::{
    apply_categories, category_for, classify, default_categories, is_generated_category,
    is_generated_category_set, validate_categories, CategoryRule, Config, ConfigError, Platform,
};

fn rule(name: &str, extensions: &[&str], replace: bool) -> CategoryRule {
    CategoryRule {
        name: name.to_string(),
        extensions: extensions.iter().map(|e| e.to_string()).collect(),
        replace,
    }
}

#[test]
fn generated_set_has_seven_flat_english_names() {
    let config = Config::default();
    let names = is_generated_category_set(&config);
    for required in ["Text", "Other", "Executable", "Compressed", "Audio", "Video", "Image"] {
        assert!(
            names.iter().any(|n| n == required),
            "missing generated name: {}",
            required
        );
    }
}

#[test]
fn apply_categories_supplement_adds_without_removing() {
    let mut config = Config::default();
    config.categories.push(rule("Text", &["foo", "bar"], false));
    let map = apply_categories(&config);
    assert_eq!(map.get("foo"), Some(&"Text".to_string()));
    assert_eq!(map.get("bar"), Some(&"Text".to_string()));
    assert_eq!(map.get("txt"), Some(&"Text".to_string()));
    assert_eq!(map.get("md"), Some(&"Text".to_string()));
    assert_eq!(map.get("pdf"), Some(&"Text".to_string()));
}

#[test]
fn apply_categories_replace_substitutes_builtin_list() {
    let mut config = Config::default();
    config.categories.push(rule("Text", &["onlytxt"], true));
    let map = apply_categories(&config);
    assert_eq!(map.get("onlytxt"), Some(&"Text".to_string()));
    assert_eq!(map.get("txt"), None);
    assert_eq!(map.get("pdf"), None);
    assert_eq!(map.get("md"), None);
}

#[test]
fn apply_categories_non_colliding_adds_untouched() {
    let mut config = Config::default();
    config.categories.push(rule("Design", &["psd", "ai"], false));
    let map = apply_categories(&config);
    assert_eq!(map.get("psd"), Some(&"Design".to_string()));
    assert_eq!(map.get("ai"), Some(&"Design".to_string()));
    assert_eq!(map.get("jpg"), Some(&"Image".to_string()));
    assert_eq!(map.get("txt"), Some(&"Text".to_string()));
}

#[test]
fn apply_categories_extension_override_wins_after_rules() {
    let mut config = Config::default();
    config.categories.push(rule("Text", &["md"], false));
    config.insert_extension("md".to_string(), "Docs".to_string());
    let map = apply_categories(&config);
    assert_eq!(map.get("md"), Some(&"Docs".to_string()));
}

#[test]
fn validate_categories_rejects_absolute_or_parent_traversal() {
    let bad = vec![
        rule("/etc/passwd", &["x"], false),
        rule("../escape", &["x"], false),
        rule("Sub/../Other", &["x"], false),
    ];
    for r in bad {
        assert!(validate_categories(&[r.clone()], Platform::host()).is_err());
        assert!(validate_categories(&[r.clone()], Platform::Posix).is_err());
        assert!(validate_categories(&[r], Platform::Windows).is_err());
    }
}

#[test]
fn validate_categories_rejects_windows_absolute_and_backslash_traversal() {
    let bad = vec![
        rule("C:\\Windows", &["x"], false),
        rule("\\Windows", &["x"], false),
        rule("..\\..\\etc", &["x"], false),
    ];
    for r in bad {
        assert!(validate_categories(&[r], Platform::Windows).is_err());
    }
}

#[test]
fn validate_categories_accepts_backslash_names_on_posix() {
    for name in ["C:\\Windows", "\\Windows", "..\\..\\etc", "C:x", "Sub/Dir", "..."] {
        assert!(validate_categories(&[rule(name, &["x"], false)], Platform::Posix).is_ok());
    }
    assert!(validate_categories(&[rule("C:/x", &["x"], false)], Platform::Windows).is_err());
    assert!(validate_categories(&[rule("C:x", &["x"], false)], Platform::Windows).is_ok());
}

#[test]
fn validate_categories_rejects_empty_extensions() {
    let r = rule("EmptyCat", &[], false);
    assert!(validate_categories(&[r], Platform::host()).is_err());
}

#[test]
fn validate_categories_rejects_duplicate_names() {
    let rules = vec![rule("Text", &["a"], false), rule("Text", &["b"], true)];
    assert!(validate_categories(&rules, Platform::host()).is_err());
}

#[test]
fn validate_categories_reports_each_problem() {
    let p = Platform::Posix;
    assert_eq!(
        validate_categories(&[rule("  \t", &["x"], false)], p),
        Err(ConfigError::EmptyCategoryName)
    );
    assert_eq!(
        validate_categories(&[rule("/abs", &["x"], false)], p),
        Err(ConfigError::UnsafeCategoryName("/abs".to_string()))
    );
    assert_eq!(
        validate_categories(&[rule("Empty", &[], false)], p),
        Err(ConfigError::EmptyCategoryExtensions("Empty".to_string()))
    );
    assert_eq!(
        validate_categories(&[rule("Blank", &["a", " "], false)], p),
        Err(ConfigError::EmptyExtensionInCategory("Blank".to_string()))
    );
    assert_eq!(
        validate_categories(&[rule("A", &["a"], false), rule("A", &["b"], false)], p),
        Err(ConfigError::DuplicateCategoryName("A".to_string()))
    );
    // The first problem in declaration order is the one reported.
    assert_eq!(
        validate_categories(&[rule("B", &[], false), rule("", &["x"], false)], p),
        Err(ConfigError::EmptyCategoryExtensions("B".to_string()))
    );
    assert_eq!(validate_categories(&[rule("A", &["a"], false), rule("B", &["b"], true)], p), Ok(()));
}

#[test]
fn is_generated_category_recognizes_flat_names() {
    let config = Config::default();
    let root = "/tmp/root";
    assert!(is_generated_category("/tmp/root/Image", root, &config));
    assert!(is_generated_category("/tmp/root/Image/nested.jpg", root, &config));
    assert!(is_generated_category("/tmp/root/Other", root, &config));
    assert!(!is_generated_category("/tmp/root/Projects", root, &config));
    assert!(!is_generated_category("/tmp/root/Im\u{e1}genes", root, &config));
}

#[test]
fn is_generated_category_compares_components() {
    let mut config = Config::default();
    config.categories.push(rule("Design", &["psd"], false));
    assert!(is_generated_category("/tmp/root/Design/a.psd", "/tmp/root", &config));
    assert!(is_generated_category("/tmp/root//Image/", "/tmp/root/", &config));
    assert!(is_generated_category("/tmp/root/./Video", "/tmp/root", &config));
    assert!(!is_generated_category("/tmp/root/Images", "/tmp/root", &config));
    assert!(!is_generated_category("/tmp/rootImage", "/tmp/root", &config));
}

#[test]
fn classify_with_precomposed_map_matches_category_for() {
    let mut config = Config::default();
    config.categories.push(rule("Design", &["psd", "ai"], false));
    config.insert_extension("md".to_string(), "Docs".to_string());

    let map = apply_categories(&config);
    assert_eq!(classify("PHOTO.JPG", &map), "Image");
    assert_eq!(classify("photo.jpg", &map), "Image");
    assert_eq!(classify("resume.PDF", &map), "Text");
    assert_eq!(classify("design.psd", &map), "Design");
    assert_eq!(classify("notes.md", &map), "Docs");
    assert_eq!(classify("README", &map), "Other");
    assert_eq!(classify("data.custom", &map), "Other");
    assert_eq!(classify("design.psd", &map), category_for("design.psd", &config));
}

#[test]
fn classify_edge_cases() {
    let map = default_categories();
    assert_eq!(classify("/downloads/archive.tar.GZ", &map), "Compressed");
    assert_eq!(classify("trailing.", &map), "Other");
    assert_eq!(classify(".hidden", &map), "Other");
    assert_eq!(classify(".mp3", &map), "Audio");
    assert_eq!(classify("/downloads/", &map), "Other");
    assert_eq!(classify("..", &map), "Other");
    assert_eq!(classify("", &map), "Other");
    assert_eq!(classify("dir.d/file", &map), "Other");
    assert_eq!(classify("a/b/song.FlAc/", &map), "Audio");
}

#[test]
fn every_builtin_extension_maps_to_nonempty_category() {
    let map = default_categories();
    let entries = map.to_vec();
    assert!(!entries.is_empty(), "default_categories is empty");
    for (extension, category) in &entries {
        assert!(
            !category.is_empty(),
            "extension '{}' maps to empty category",
            extension
        );
        assert_ne!(
            category, "Other",
            "extension '{}' maps to fallback Other",
            extension
        );
    }
    assert_eq!(map.get("xls"), Some(&"Text".to_string()));
    assert_eq!(map.get("ppt"), Some(&"Text".to_string()));
    assert_eq!(entries.len(), 54);
}

#[test]
fn classifies_extensions_case_insensitively() {
    let config = Config::default();
    assert_eq!(category_for("PHOTO.JPG", &config), "Image");
    assert_eq!(category_for("README.TXT", &config), "Text");
    assert_eq!(category_for("Resume.PDF", &config), "Text");
    assert_eq!(category_for("Song.MP3", &config), "Audio");
    assert_eq!(category_for("README", &config), "Other");
    assert_eq!(category_for("data.custom", &config), "Other");
}

#[test]
fn custom_extension_overrides_defaults() {
    let mut config = Config::default();
    config.insert_extension("pdf".into(), "Revisar".into());
    assert_eq!(category_for("document.pdf", &config), "Revisar");
}

#[test]
fn category_for_unknown_extension_returns_other() {
    let config = Config::default();
    assert_eq!(category_for("data.unknownext", &config), "Other");
}

#[test]
fn supplemental_category_rule_adds_extensions() {
    let mut config = Config::default();
    config.categories.push(rule("Text", &["foo", "bar"], false));
    assert_eq!(category_for("a.foo", &config), "Text");
    assert_eq!(category_for("a.bar", &config), "Text");
    assert_eq!(category_for("a.txt", &config), "Text");
    assert_eq!(category_for("a.md", &config), "Text");
}

#[test]
fn replace_true_substitutes_builtin_list() {
    let mut config = Config::default();
    config.categories.push(rule("Text", &["onlytxt"], true));
    assert_eq!(category_for("a.onlytxt", &config), "Text");
    assert_eq!(category_for("a.txt", &config), "Other");
    assert_eq!(category_for("a.md", &config), "Other");
    assert_eq!(category_for("a.pdf", &config), "Other");
}

#[test]
fn non_colliding_category_adds_untouched() {
    let mut config = Config::default();
    config.categories.push(rule("Design", &["psd", "ai"], false));
    assert_eq!(category_for("a.psd", &config), "Design");
    assert_eq!(category_for("a.ai", &config), "Design");
    assert_eq!(category_for("a.jpg", &config), "Image");
    assert_eq!(category_for("a.txt", &config), "Text");
    assert_eq!(category_for("a.md", &config), "Text");
}

#[test]
fn extension_override_wins_after_rules() {
    let mut config = Config::default();
    config.categories.push(rule("Text", &["md"], false));
    config.insert_extension("md".to_string(), "Docs".to_string());
    assert_eq!(category_for("a.md", &config), "Docs");
}

#[test]
fn rule_extensions_and_override_keys_fold_case() {
    let mut config = Config::default();
    config.categories.push(rule("Design", &["PSD"], false));
    config.insert_extension("MD".to_string(), "Docs".to_string());
    assert_eq!(category_for("x.psd", &config), "Design");
    assert_eq!(category_for("x.Md", &config), "Docs");
}

#[test]
fn replace_rule_then_later_supplement_of_same_words() {
    // A replacing rule also drops mappings that earlier rules added.
    let mut config = Config::default();
    config.categories.push(rule("Design", &["psd"], false));
    config.categories.push(rule("Design2", &["ai"], false));
    config.categories.push(rule("Image", &["raw"], true));
    let map = apply_categories(&config);
    assert_eq!(map.get("jpg"), None);
    assert_eq!(map.get("raw"), Some(&"Image".to_string()));
    assert_eq!(map.get("psd"), Some(&"Design".to_string()));
}

#[test]
fn host_platform_follows_the_path_separator() {
    let expected = if std::path::MAIN_SEPARATOR == '\\' {
        Platform::Windows
    } else {
        Platform::Posix
    };
    assert_eq!(Platform::host(), expected);
}

#[test]
fn generated_set_is_sorted_and_includes_rule_names() {
    let mut config = Config::default();
    config.categories.push(rule("Design", &["psd"], false));
    config.categories.push(rule("Text", &["foo"], false));
    let names = is_generated_category_set(&config);
    assert_eq!(
        names,
        vec!["Audio", "Compressed", "Design", "Executable", "Image", "Other", "Text", "Video"]
    );
}

#[test]
fn last_override_entry_wins_among_case_variants() {
    let mut config = Config::default();
    config.insert_extension("MD".to_string(), "Upper".to_string());
    config.insert_extension("md".to_string(), "Lower".to_string());
    assert_eq!(category_for("notes.md", &config), "Lower");
    assert_eq!(category_for("notes.MD", &config), "Lower");
}

#[test]
fn platform_from_separator() {
    assert_eq!(organiza::platform_for_separator('\\'), Platform::Windows);
    assert_eq!(organiza::platform_for_separator('/'), Platform::Posix);
}
