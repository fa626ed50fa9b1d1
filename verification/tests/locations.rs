use organiza::{
    config_path, downloads_candidates, home_directory, home_from_env, lock_path,
    parse_xdg_download_dir, platform_for_os, user_dirs_path, HostOs, Platform,
};

#[test]
fn default_config_path_uses_organiza_directory() {
    for os in [HostOs::Linux, HostOs::MacOs] {
        let path = config_path(None, None, None, "/home/u", os);
        assert!(path.ends_with("/organiza/config.toml"), "got: {}", path);
        assert!(!path.contains("file-organizer"), "got: {}", path);
    }
    let path = config_path(None, None, None, "C:\\Users\\u", HostOs::Windows);
    assert!(path.ends_with("\\organiza\\config.toml"), "got: {}", path);
    assert!(!path.contains("file-organizer"), "got: {}", path);
    assert_eq!(
        config_path(None, None, None, "/home/u", HostOs::Linux),
        "/home/u/.config/organiza/config.toml"
    );
    assert_eq!(
        config_path(None, None, Some("/xdg".to_string()), "/home/u", HostOs::Linux),
        "/xdg/organiza/config.toml"
    );
    assert_eq!(
        config_path(None, None, None, "C:\\Users\\u", HostOs::Windows),
        "C:\\Users\\u\\AppData\\Roaming\\organiza\\config.toml"
    );
    assert_eq!(
        config_path(None, Some("C:\\AppData".to_string()), None, "/home/u", HostOs::Windows),
        "C:\\AppData\\organiza\\config.toml"
    );
    assert_eq!(
        config_path(Some("/etc/o.toml".to_string()), None, None, "/home/u", HostOs::Linux),
        "/etc/o.toml"
    );
}

#[test]
fn lock_path_per_platform() {
    assert_eq!(lock_path(None, "/home/u", HostOs::Linux), "/home/u/.cache/organiza.lock");
    assert_eq!(
        lock_path(None, "C:\\Users\\u", HostOs::Windows),
        "C:\\Users\\u\\AppData\\Local\\organiza.lock"
    );
    assert_eq!(
        lock_path(Some("D:\\Local".to_string()), "C:\\Users\\u", HostOs::Windows),
        "D:\\Local\\organiza.lock"
    );
}

#[test]
fn home_directory_fallbacks() {
    assert_eq!(home_directory(Some("/h".to_string()), Some("/p".to_string())), "/h");
    assert_eq!(home_directory(None, Some("/p".to_string())), "/p");
    assert_eq!(home_directory(None, None), ".");
    assert_eq!(
        home_from_env(HostOs::Windows, Some("/h".to_string()), Some("/p".to_string())),
        Some("/p".to_string())
    );
    assert_eq!(
        home_from_env(HostOs::Linux, Some("/h".to_string()), Some("/p".to_string())),
        Some("/h".to_string())
    );
}

#[test]
fn default_downloads_path_honors_env_var() {
    let custom = "/tmp/t/custom-downloads".to_string();
    let list = downloads_candidates(
        Some(custom.clone()),
        "/home/u",
        Some("/home/u/Downloads".to_string()),
        Some("/tmp/t".to_string()),
        HostOs::Linux,
    );
    assert_eq!(list[0], custom);
}

#[test]
fn default_downloads_path_reads_xdg_user_dirs() {
    let home = "/tmp/t";
    assert_eq!(user_dirs_path(home), "/tmp/t/.config/user-dirs.dirs");
    let quoted = "XDG_DOWNLOAD_DIR=\"$HOME/Downloads\"\nXDG_DESKTOP_DIR=\"$HOME/Desktop\"\n";
    let parsed = parse_xdg_download_dir(quoted, home);
    assert_eq!(parsed.as_deref(), Some("/tmp/t/Downloads"));
    let list = downloads_candidates(None, "/home/u", parsed, Some(home.to_string()), HostOs::Linux);
    assert_eq!(list, vec!["/tmp/t/Downloads".to_string()]);
    assert!(!list[0].contains("\"$HOME\""), "literal $HOME survives: {}", list[0]);
}

#[test]
fn default_downloads_path_returns_home_downloads() {
    let list = downloads_candidates(None, "/h", None, Some("/tmp/t".to_string()), HostOs::MacOs);
    assert_eq!(list, vec!["/tmp/t/Downloads".to_string()]);
}

#[test]
fn default_downloads_path_selects_userprofile_downloads_first() {
    let list = downloads_candidates(None, "C:\\h", None, Some("C:\\t".to_string()), HostOs::Windows);
    assert_eq!(list[0], "C:\\t\\Downloads");
}

#[test]
fn default_downloads_path_uses_localized_fallback() {
    let list = downloads_candidates(None, "C:\\h", None, Some("C:\\t".to_string()), HostOs::Windows);
    assert_eq!(
        list,
        vec![
            "C:\\t\\Downloads".to_string(),
            "C:\\t\\Descargas".to_string(),
            "C:\\t\\T\u{e9}l\u{e9}chargements".to_string(),
            "C:\\t\\Scaricati".to_string(),
            "C:\\t\\\u{4e0b}\u{8f7d}".to_string(),
        ]
    );
}

#[test]
fn downloads_candidates_without_home() {
    let list = downloads_candidates(Some("~/dl".to_string()), "C:\\Users\\u", None, None, HostOs::Windows);
    assert_eq!(list, vec!["C:\\Users\\u\\dl".to_string()]);
    let list = downloads_candidates(Some("~/dl".to_string()), "/home/u", None, None, HostOs::Linux);
    assert_eq!(list, vec!["/home/u/dl".to_string()]);
    assert!(downloads_candidates(None, "/h", Some("/x".to_string()), None, HostOs::Linux).is_empty());
}

#[test]
fn xdg_parsing_edge_cases() {
    let h = "/home/u";
    assert_eq!(parse_xdg_download_dir("", h), None);
    assert_eq!(parse_xdg_download_dir("XDG_DOWNLOAD_DIR=\"\"\n", h), None);
    assert_eq!(parse_xdg_download_dir("XDG_DOWNLOAD_DIR=\"$HOME\"\n", h).as_deref(), Some("/home/u"));
    assert_eq!(
        parse_xdg_download_dir("# c\r\n  XDG_DOWNLOAD_DIR=\"/data/dl\"  \r\n", h).as_deref(),
        Some("/data/dl")
    );
    // The first matching line decides, even when its value is empty.
    assert_eq!(
        parse_xdg_download_dir("XDG_DOWNLOAD_DIR=\"\"\nXDG_DOWNLOAD_DIR=\"/x\"\n", h),
        None
    );
    assert_eq!(parse_xdg_download_dir("XDG_DOWNLOAD_DIR=/plain", h).as_deref(), Some("/plain"));
}

#[test]
fn path_conventions_follow_the_os() {
    assert_eq!(platform_for_os(HostOs::Windows), Platform::Windows);
    assert_eq!(platform_for_os(HostOs::Linux), Platform::Posix);
    assert_eq!(platform_for_os(HostOs::MacOs), Platform::Posix);
    assert_eq!(platform_for_os(HostOs::Other), Platform::Posix);
    // A base that already ends with a separator gets none added.
    assert_eq!(
        config_path(None, Some("C:\\AppData\\".to_string()), None, "C:\\Users\\u", HostOs::Windows),
        "C:\\AppData\\organiza\\config.toml"
    );
    assert_eq!(
        config_path(None, None, Some("/xdg/".to_string()), "/home/u", HostOs::MacOs),
        "/xdg/organiza/config.toml"
    );
}
