//! organiza: classification of files by extension into category folders.
//!
//! The library holds the rules: the built-in extension table, the
//! resolution of user `[[categories]]` and `[extensions]`, classification,
//! configuration validation and source precedence, and the decisions of a
//! run (which entries are scanned, which directories move, how conflicts
//! are settled, what a dry run does, when a run fails). Paths are handled
//! as text, joined with the separators of a platform. Reading the
//! environment, the file system and the clock is left to the caller, which
//! hands the values in.

pub mod categories;
pub mod category_map;
pub mod config;
pub mod i18n;
pub mod locations;
pub mod paths;
pub mod planning;
pub mod text;

pub use categories::{
    apply_categories, category_for, classify, default_categories, is_generated_category,
    is_generated_category_set, is_unsafe_category_name, platform_for_separator,
    validate_categories, CategoryRule, Platform, DEFAULT_CATEGORY,
};
pub use category_map::CategoryMap;
pub use config::{
    expand_home, loads_config_file, needs_downloads_detection, prepare_loaded_config,
    resolve_config, validate_config, Config, ConfigError, ConflictPolicy, RunOptions,
};
pub use i18n::{
    choose_locale, detect_system_locale, is_supported_language, preflight_config_language,
};
pub use locations::{
    config_path, downloads_candidates, home_directory, home_from_env, lock_path,
    parse_xdg_download_dir, platform_for_os, user_dirs_path, HostOs,
};
pub use paths::{path_text_for, same_path_exec};
pub use planning::{
    category_directory, directory_destination, failure_message, file_destination,
    is_excluded_path, is_null_device, is_recent, move_step, move_verb, plan_move,
    rename_candidate, rename_destination, replaces_existing, root_step, should_process_file,
    should_visit, takes_lock, timestamp_text, top_level_directory_candidate, MovePlan, MoveStep,
    RootStep, RunTally,
};
