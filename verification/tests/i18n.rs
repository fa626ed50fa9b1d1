use organiza::{choose_locale, detect_system_locale, is_supported_language, preflight_config_language};

#[test]
fn detects_spanish_from_lang_env() {
    assert_eq!(detect_system_locale(Some("es_ES.UTF-8"), None, None), Some("es"));
}

#[test]
fn detects_english_from_lang_env() {
    assert_eq!(detect_system_locale(Some("en_US.UTF-8"), None, None), Some("en"));
}

#[test]
fn detects_spanish_from_hyphenated_lang_env() {
    assert_eq!(detect_system_locale(Some("es-ES.UTF-8"), None, None), Some("es"));
}

#[test]
fn detects_english_from_hyphenated_lang_env() {
    assert_eq!(detect_system_locale(Some("en-US.UTF-8"), None, None), Some("en"));
}

#[test]
fn returns_none_for_unsupported_locale() {
    assert_eq!(detect_system_locale(Some("fr_FR.UTF-8"), None, None), None);
}

#[test]
fn detects_from_lc_all_when_lang_missing() {
    assert_eq!(detect_system_locale(None, Some("es_MX.UTF-8"), None), Some("es"));
}

#[test]
fn detects_from_language_as_fallback() {
    assert_eq!(detect_system_locale(None, None, Some("en:es:fr")), Some("en"));
}

#[test]
fn set_but_unsupported_lang_does_not_fall_through() {
    assert_eq!(detect_system_locale(Some("fr_FR"), Some("es_ES"), None), None);
    assert_eq!(detect_system_locale(Some("es"), None, None), Some("es"));
    assert_eq!(detect_system_locale(Some("C"), None, None), None);
    assert_eq!(detect_system_locale(None, None, None), None);
}

#[test]
fn init_locale_accepts_supported_languages() {
    let system = detect_system_locale(None, None, None);
    assert_eq!(choose_locale(Some("es"), None, system), "es");
    assert_eq!(choose_locale(Some("en"), None, system), "en");
}

#[test]
fn init_locale_ignores_unsupported_cli_language() {
    let system = detect_system_locale(None, None, None);
    assert_eq!(choose_locale(Some("fr"), Some("es"), system), "es");
    assert_eq!(choose_locale(Some("fr"), None, system), "en");
}

#[test]
fn init_locale_ignores_unsupported_config_language() {
    let system = detect_system_locale(None, None, None);
    assert_eq!(choose_locale(None, Some("de"), system), "en");
}

#[test]
fn init_locale_uses_system_language_last() {
    let system = detect_system_locale(Some("es_AR.UTF-8"), None, None);
    assert_eq!(choose_locale(Some("fr"), Some("de"), system), "es");
    assert_eq!(choose_locale(Some("en"), Some("de"), system), "en");
}

#[test]
fn supported_languages_are_en_and_es() {
    assert!(is_supported_language("en"));
    assert!(is_supported_language("es"));
    assert!(!is_supported_language("EN"));
    assert!(!is_supported_language("fr"));
    assert!(!is_supported_language(""));
}

#[test]
fn preflight_extracts_language_from_valid_config() {
    let source = "language = \"es\"\nmin_age_seconds = 5\n";
    assert_eq!(preflight_config_language(source).as_deref(), Some("es"));
}

#[test]
fn preflight_extracts_language_even_when_other_fields_are_invalid() {
    let source = "language = \"es\"\n[extensions]\nmd = \"\"\n";
    assert_eq!(preflight_config_language(source).as_deref(), Some("es"));
}

#[test]
fn preflight_returns_none_for_missing_or_invalid_config() {
    assert_eq!(preflight_config_language("not toml {{{\n"), None);
    assert_eq!(preflight_config_language("min_age_seconds = 5\n"), None);
    assert_eq!(preflight_config_language("language = 5\n"), None);
}
