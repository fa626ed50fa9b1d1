use organiza::{
    category_directory, directory_destination, failure_message, file_destination,
    is_excluded_path, is_null_device, is_recent, move_step, move_verb, path_text_for, plan_move,
    rename_candidate, rename_destination, replaces_existing, root_step, should_process_file,
    should_visit, takes_lock, timestamp_text, top_level_directory_candidate, CategoryRule, Config,
    ConflictPolicy, MovePlan, MoveStep, Platform, RootStep, RunTally,
};

#[test]
fn unique_destination_preserves_extension() {
    assert_eq!(rename_candidate(Some("file.pdf"), 1), "file (1).pdf");
}

#[test]
fn rename_candidate_forms() {
    assert_eq!(rename_candidate(Some("file.tar.gz"), 12), "file.tar (12).gz");
    assert_eq!(rename_candidate(Some("README"), 3), "README (3)");
    assert_eq!(rename_candidate(Some(".bashrc"), 1), ".bashrc (1)");
    assert_eq!(rename_candidate(Some("dot."), 2), "dot (2).");
    assert_eq!(rename_candidate(None, 1), "archivo (1)");
    assert_eq!(rename_candidate(Some("x"), 18446744073709551615), "x (18446744073709551615)");
    assert_eq!(rename_candidate(Some("a.b"), 0), "a (0).b");
}

#[test]
fn plan_move_by_policy() {
    for policy in [ConflictPolicy::Skip, ConflictPolicy::Rename, ConflictPolicy::Overwrite] {
        assert_eq!(plan_move(false, false, policy), MovePlan::Requested);
    }
    assert_eq!(plan_move(true, false, ConflictPolicy::Skip), MovePlan::SkipConflict);
    assert_eq!(plan_move(true, true, ConflictPolicy::Rename), MovePlan::UniqueName);
    assert_eq!(plan_move(true, true, ConflictPolicy::Overwrite), MovePlan::SkipDirectoryDestination);
    assert_eq!(plan_move(true, false, ConflictPolicy::Overwrite), MovePlan::Requested);
    assert!(replaces_existing(ConflictPolicy::Overwrite, true));
    assert!(!replaces_existing(ConflictPolicy::Overwrite, false));
    assert!(!replaces_existing(ConflictPolicy::Rename, true));
}

#[test]
fn is_recent_by_age() {
    assert!(!is_recent(0, None));
    assert!(is_recent(60, None));
    assert!(is_recent(60, Some(59)));
    assert!(!is_recent(60, Some(60)));
    assert!(is_recent(60, Some(0)));
}

#[test]
fn scan_skips_generated_and_hidden() {
    let config = Config::default();
    let root = "/tmp/root";
    assert!(should_visit(0, root, true, root, &config));
    assert!(!should_visit(1, "/tmp/root/Image", true, root, &config));
    assert!(should_visit(1, "/tmp/root/Image", false, root, &config));
    assert!(!should_visit(1, "/tmp/root/.cache", true, root, &config));
    assert!(should_visit(2, "/tmp/root/Projects/a.txt", false, root, &config));
    let mut shown = Config::default();
    shown.ignore_hidden = false;
    assert!(should_visit(1, "/tmp/root/.cache", true, root, &shown));
    assert!(!should_process_file("/tmp/root/.env", &config));
    assert!(should_process_file("/tmp/root/.env", &shown));
    assert!(should_process_file("/tmp/root/a.txt", &config));
}

#[test]
fn top_level_directory_candidates() {
    let mut config = Config::default();
    config.categories.push(CategoryRule {
        name: "Design".to_string(),
        extensions: vec!["psd".to_string()],
        replace: false,
    });
    let root = "/tmp/root";
    assert!(top_level_directory_candidate(1, false, true, "/tmp/root/Projects", root, &config));
    assert!(!top_level_directory_candidate(0, false, true, root, root, &config));
    assert!(!top_level_directory_candidate(1, true, true, "/tmp/root/Linked", root, &config));
    assert!(!top_level_directory_candidate(1, false, false, "/tmp/root/a.txt", root, &config));
    assert!(!top_level_directory_candidate(1, false, true, "/tmp/root/.cache", root, &config));
    assert!(!top_level_directory_candidate(1, false, true, "/tmp/root/Audio", root, &config));
    assert!(!top_level_directory_candidate(1, false, true, "/tmp/root/Other", root, &config));
    assert!(!top_level_directory_candidate(1, false, true, "/tmp/root/Design", root, &config));
}

#[test]
fn timestamps_and_null_devices() {
    assert_eq!(timestamp_text(Some(1725029869)), "1725029869");
    assert_eq!(timestamp_text(Some(0)), "0");
    assert_eq!(timestamp_text(None), "0");
    assert!(is_null_device(Some("/dev/null")));
    assert!(is_null_device(Some("NUL")));
    assert!(is_null_device(Some("nul")));
    assert!(!is_null_device(Some("Nul")));
    assert!(!is_null_device(Some("/tmp/log.txt")));
    assert!(!is_null_device(None));
}

#[test]
fn destinations_are_joined_natively() {
    let p = Platform::Posix;
    assert_eq!(category_directory("/tmp/root", "Image", p), "/tmp/root/Image");
    assert_eq!(file_destination("/tmp/root", "Image", "a.jpg", p), "/tmp/root/Image/a.jpg");
    assert_eq!(file_destination("/tmp/root/", "Image", "a.jpg", p), "/tmp/root/Image/a.jpg");
    assert_eq!(directory_destination("/tmp/root", "Projects", p), "/tmp/root/Other/Projects");
    assert_eq!(rename_destination("/tmp/root/Text", Some("file.pdf"), 1, p), "/tmp/root/Text/file (1).pdf");
    let w = Platform::Windows;
    assert_eq!(
        file_destination("\\\\?\\C:\\Users\\u\\Downloads", "Image", "a.jpg", w),
        "\\\\?\\C:\\Users\\u\\Downloads\\Image\\a.jpg"
    );
    assert_eq!(directory_destination("C:\\dl\\", "Projects", w), "C:\\dl\\Other\\Projects");
    assert_eq!(category_directory("C:/dl/", "Text", w), "C:/dl/Text");
}

#[test]
fn excluded_paths_compare_by_components() {
    let excluded = vec!["/tmp/root/log.txt".to_string()];
    assert!(is_excluded_path("/tmp/root/log.txt", &excluded));
    assert!(is_excluded_path("/tmp/root//log.txt", &excluded));
    assert!(!is_excluded_path("/tmp/root/log.txt.bak", &excluded));
    assert!(!is_excluded_path("/tmp/root/log.txt", &[]));
    assert_eq!(path_text_for("C:\\dl\\a.jpg", Platform::Windows), "C:/dl/a.jpg");
    assert_eq!(path_text_for("a\\b", Platform::Posix), "a\\b");
}

#[test]
fn dry_run_takes_no_lock_and_moves_nothing() {
    assert!(takes_lock(false));
    assert!(!takes_lock(true));
    for plan in [
        MovePlan::Requested,
        MovePlan::UniqueName,
        MovePlan::SkipConflict,
        MovePlan::SkipDirectoryDestination,
    ] {
        assert_ne!(move_step(plan, true), MoveStep::ReportAndMove);
    }
    assert_eq!(move_step(MovePlan::Requested, true), MoveStep::Report);
    assert_eq!(move_step(MovePlan::UniqueName, true), MoveStep::Report);
    assert_eq!(move_step(MovePlan::Requested, false), MoveStep::ReportAndMove);
    assert_eq!(move_step(MovePlan::UniqueName, false), MoveStep::ReportAndMove);
    assert_eq!(move_step(MovePlan::SkipConflict, false), MoveStep::Leave);
    assert_eq!(move_step(MovePlan::SkipDirectoryDestination, true), MoveStep::Leave);
    assert_eq!(move_verb(true), "Se mover\u{ed}a");
    assert_eq!(move_verb(false), "Movido");
}

#[test]
fn missing_root_is_counted_and_the_run_fails() {
    assert_eq!(root_step(true), RootStep::Process);
    assert_eq!(root_step(false), RootStep::ReportMissing);
    let mut tally = RunTally::new();
    assert_eq!(tally.outcome(), Ok(()));
    tally.record_failure();
    tally.record_failure();
    assert_eq!(tally.failures, 2);
    assert_eq!(tally.outcome(), Err(2));
    let mut full = RunTally { failures: u64::MAX };
    full.record_failure();
    assert_eq!(full.outcome(), Err(u64::MAX));
    assert_eq!(
        failure_message(3),
        "3 carpeta(s) o archivo(s) no se pudieron procesar"
    );
}

#[test]
fn windows_joins_keep_the_drive_of_the_root() {
    let w = Platform::Windows;
    assert_eq!(category_directory("C:\\inbox", "Image", w), "C:\\inbox\\Image");
    assert_eq!(category_directory("C:\\inbox\\", "Image", w), "C:\\inbox\\Image");
    assert_eq!(category_directory("C:\\inbox", "\\Image", w), "C:\\Image");
    assert_eq!(category_directory("C:\\inbox", "D:Image", w), "D:Image");
    assert_eq!(category_directory("/inbox", "/Image", Platform::Posix), "/Image");
}
