//! The runtime configuration and its abstract view.

use vstd::prelude::*;

use crate::categories::{
    categories_error, rule_error, is_unsafe_category_name, is_unsafe_name, validate_categories, CategoryRule,
    Platform, RuleView,
};
use crate::paths::{join_native, join_native_exec};
use crate::text::{is_blank, is_blank_str, owned, starts_with, strip_prefix_str, str_eq};

verus! {

/// What to do when the destination of a move already exists.
#[derive(Debug, Clone, Copy, PartialEq, Eq, Structural)]
pub enum ConflictPolicy {
    Skip,
    Rename,
    Overwrite,
}

impl Default for ConflictPolicy {
    fn default() -> (r: Self)
        ensures
            r == ConflictPolicy::Rename,
    {
        ConflictPolicy::Rename
    }
}

/// The organizer's configuration. Paths are POSIX strings; `extensions`
/// holds the `[extensions]` table as `(extension, category)` pairs in the
/// order they were read.
#[derive(Debug, Clone)]
pub struct Config {
    pub source_directories: Vec<String>,
    pub recursive: bool,
    pub on_conflict: ConflictPolicy,
    pub min_age_seconds: u64,
    pub ignore_hidden: bool,
    pub log_file: Option<String>,
    /// Extension-to-category overrides. Keys are case-insensitive.
    pub extensions: Vec<(String, String)>,
    /// User-supplied category declarations, in declaration order.
    pub categories: Vec<CategoryRule>,
}

/// The abstract value of a [`Config`].
pub struct ConfigView {
    pub source_directories: Seq<Seq<char>>,
    pub recursive: bool,
    pub on_conflict: ConflictPolicy,
    pub min_age_seconds: u64,
    pub ignore_hidden: bool,
    pub log_file: Option<Seq<char>>,
    pub extensions: Seq<(Seq<char>, Seq<char>)>,
    pub categories: Seq<RuleView>,
}

/// The characters of each string.
pub open spec fn strings_view(v: Seq<String>) -> Seq<Seq<char>> {
    v.map_values(|s: String| s@)
}

/// The characters of an optional string.
pub open spec fn opt_string_view(o: Option<String>) -> Option<Seq<char>> {
    match o {
        Some(s) => Some(s@),
        None => None,
    }
}

/// The characters of each pair of strings.
pub open spec fn pairs_view(v: Seq<(String, String)>) -> Seq<(Seq<char>, Seq<char>)> {
    v.map_values(|e: (String, String)| (e.0@, e.1@))
}

impl View for Config {
    type V = ConfigView;

    open spec fn view(&self) -> ConfigView {
        ConfigView {
            source_directories: strings_view(self.source_directories@),
            recursive: self.recursive,
            on_conflict: self.on_conflict,
            min_age_seconds: self.min_age_seconds,
            ignore_hidden: self.ignore_hidden,
            log_file: opt_string_view(self.log_file),
            extensions: pairs_view(self.extensions@),
            categories: self.categories@.map_values(|r: CategoryRule| r@),
        }
    }
}

impl Config {
    /// The `[extensions]` keys are pairwise distinct, as in a TOML table.
    pub open spec fn extension_keys_distinct(&self) -> bool {
        forall|i: int, j: int|
            0 <= i < self.extensions@.len() && 0 <= j < self.extensions@.len() && i != j
                ==> #[trigger] self.extensions@[i].0@ != #[trigger] self.extensions@[j].0@
    }

    /// Sets the category of `extension` in `[extensions]`, replacing an
    /// entry with the same key (`HashMap::insert`).
    pub fn insert_extension(&mut self, extension: String, category: String)
        ensures
            final(self).source_directories == old(self).source_directories,
            final(self).recursive == old(self).recursive,
            final(self).on_conflict == old(self).on_conflict,
            final(self).min_age_seconds == old(self).min_age_seconds,
            final(self).ignore_hidden == old(self).ignore_hidden,
            final(self).log_file == old(self).log_file,
            final(self).categories == old(self).categories,
            (exists|i: int| 0 <= i < old(self).extensions@.len() && #[trigger] old(self).extensions@[i].0@ == extension@)
                ==> final(self).extensions@.len() == old(self).extensions@.len()
                && forall|i: int| 0 <= i < old(self).extensions@.len() ==> #[trigger] final(self).extensions@[i] == if old(self).extensions@[i].0@ == extension@ {
                    (extension, category)
                } else {
                    old(self).extensions@[i]
                },
            !(exists|i: int| 0 <= i < old(self).extensions@.len() && #[trigger] old(self).extensions@[i].0@ == extension@)
                ==> final(self).extensions@ == old(self).extensions@.push((extension, category)),
            old(self).extension_keys_distinct() ==> final(self).extension_keys_distinct(),
    {
        let mut exts: Vec<(String, String)> = Vec::new();
        std::mem::swap(&mut exts, &mut self.extensions);
        let ghost orig = exts@;
        let mut i: usize = 0;
        let mut found = false;
        while i < exts.len()
            invariant
                i <= exts@.len(),
                exts@.len() == orig.len(),
                found ==> exists|j: int| 0 <= j < orig.len() && #[trigger] orig[j].0@ == extension@,
                !found ==> forall|j: int| 0 <= j < i ==> #[trigger] orig[j].0@ != extension@,
                forall|j: int| 0 <= j < orig.len() ==> #[trigger] exts@[j] == if j < i && orig[j].0@ == extension@ {
                    (extension, category)
                } else {
                    orig[j]
                },
            decreases exts.len() - i,
        {
            if exts[i].0 == extension {
                exts.set(i, (extension.clone(), category.clone()));
                found = true;
            }
            i = i + 1;
        }
        proof {
            assert forall|a: int| 0 <= a < orig.len() implies #[trigger] exts@[a].0@ == orig[a].0@ by {
                assert(exts@[a] == if a < i && orig[a].0@ == extension@ {
                    (extension, category)
                } else {
                    orig[a]
                });
            }
        }
        if !found {
            assert(exts@ =~= orig);
            exts.push((extension, category));
            assert(forall|a: int| 0 <= a < orig.len() ==> #[trigger] exts@[a] == orig[a]);
        }
        self.extensions = exts;
    }
}

impl Default for Config {
    fn default() -> (r: Self)
        ensures
            r.source_directories@.len() == 0,
            !r.recursive,
            r.on_conflict == ConflictPolicy::Rename,
            r.min_age_seconds == 60,
            r.ignore_hidden,
            r.log_file is None,
            r.extensions@.len() == 0,
            r.categories@.len() == 0,
    {
        Config {
            source_directories: Vec::new(),
            recursive: false,
            on_conflict: ConflictPolicy::Rename,
            min_age_seconds: 60,
            ignore_hidden: true,
            log_file: None,
            extensions: Vec::new(),
            categories: Vec::new(),
        }
    }
}

/// Options of one run.
#[derive(Debug, Clone, Copy)]
pub struct RunOptions {
    pub dry_run: bool,
    pub verbose: bool,
    pub conflict_policy: ConflictPolicy,
}


/// Why a configuration was refused.
#[derive(Debug, Clone, PartialEq, Eq)]
pub enum ConfigError {
    EmptyCategoryName,
    UnsafeCategoryName(String),
    EmptyCategoryExtensions(String),
    EmptyExtensionInCategory(String),
    DuplicateCategoryName(String),
    EmptySourceDirectory,
    EmptyExtensionOverride,
    UnsafeOverrideCategory(String),
}

/// The abstract value of a [`ConfigError`].
pub enum ConfigErrorView {
    EmptyCategoryName,
    UnsafeCategoryName(Seq<char>),
    EmptyCategoryExtensions(Seq<char>),
    EmptyExtensionInCategory(Seq<char>),
    DuplicateCategoryName(Seq<char>),
    EmptySourceDirectory,
    EmptyExtensionOverride,
    UnsafeOverrideCategory(Seq<char>),
}

impl View for ConfigError {
    type V = ConfigErrorView;

    open spec fn view(&self) -> ConfigErrorView {
        match self {
            ConfigError::EmptyCategoryName => ConfigErrorView::EmptyCategoryName,
            ConfigError::UnsafeCategoryName(n) => ConfigErrorView::UnsafeCategoryName(n@),
            ConfigError::EmptyCategoryExtensions(n) => ConfigErrorView::EmptyCategoryExtensions(n@),
            ConfigError::EmptyExtensionInCategory(n) => ConfigErrorView::EmptyExtensionInCategory(n@),
            ConfigError::DuplicateCategoryName(n) => ConfigErrorView::DuplicateCategoryName(n@),
            ConfigError::EmptySourceDirectory => ConfigErrorView::EmptySourceDirectory,
            ConfigError::EmptyExtensionOverride => ConfigErrorView::EmptyExtensionOverride,
            ConfigError::UnsafeOverrideCategory(n) => ConfigErrorView::UnsafeOverrideCategory(n@),
        }
    }
}


impl ConfigError {
    /// The text that reports this error.
    pub fn message(&self) -> (r: String)
        ensures
            r@ == error_message(self@),
    {
        match self {
            ConfigError::EmptyCategoryName => owned("category name cannot be empty"),
            ConfigError::UnsafeCategoryName(n) => {
                let mut m = owned("category name '");
                m.append(n.as_str());
                m.append("' is not a safe folder name (absolute path or '..' segment)");
                m
            },
            ConfigError::EmptyCategoryExtensions(n) => {
                let mut m = owned("category '");
                m.append(n.as_str());
                m.append("' has empty extensions list");
                m
            },
            ConfigError::EmptyExtensionInCategory(n) => {
                let mut m = owned("category '");
                m.append(n.as_str());
                m.append("' contains an empty extension");
                m
            },
            ConfigError::DuplicateCategoryName(n) => {
                let mut m = owned("duplicate category name '");
                m.append(n.as_str());
                m.append("' across [[categories]] rules");
                m
            },
            ConfigError::EmptySourceDirectory => owned(
                "source_directories contiene una ruta vac\u{ed}a",
            ),
            ConfigError::EmptyExtensionOverride => owned(
                "extensions no puede contener claves o categor\u{ed}as vac\u{ed}as",
            ),
            ConfigError::UnsafeOverrideCategory(n) => {
                let mut m = owned("la categor\u{ed}a '");
                m.append(n.as_str());
                m.append("' contiene una ruta no permitida");
                m
            },
        }
    }
}

/// The text that reports an error.
pub open spec fn error_message(e: ConfigErrorView) -> Seq<char> {
    match e {
        ConfigErrorView::EmptyCategoryName => "category name cannot be empty"@,
        ConfigErrorView::UnsafeCategoryName(n) => "category name '"@ + n
            + "' is not a safe folder name (absolute path or '..' segment)"@,
        ConfigErrorView::EmptyCategoryExtensions(n) => "category '"@ + n
            + "' has empty extensions list"@,
        ConfigErrorView::EmptyExtensionInCategory(n) => "category '"@ + n
            + "' contains an empty extension"@,
        ConfigErrorView::DuplicateCategoryName(n) => "duplicate category name '"@ + n
            + "' across [[categories]] rules"@,
        ConfigErrorView::EmptySourceDirectory => "source_directories contiene una ruta vac\u{ed}a"@,
        ConfigErrorView::EmptyExtensionOverride => "extensions no puede contener claves o categor\u{ed}as vac\u{ed}as"@,
        ConfigErrorView::UnsafeOverrideCategory(n) => "la categor\u{ed}a '"@ + n
            + "' contiene una ruta no permitida"@,
    }
}

// ---------------------------------------------------------------------------
// Validation
// ---------------------------------------------------------------------------

/// The problem of one `[extensions]` entry: a blank key or category, or an
/// unsafe category name.
pub open spec fn override_error(entry: (Seq<char>, Seq<char>), p: Platform) -> Option<ConfigErrorView> {
    if is_blank(entry.0) || is_blank(entry.1) {
        Some(ConfigErrorView::EmptyExtensionOverride)
    } else if is_unsafe_name(entry.1, p) {
        Some(ConfigErrorView::UnsafeOverrideCategory(entry.1))
    } else {
        None
    }
}

/// The problem of the first `[extensions]` entry that has one.
pub open spec fn overrides_error(entries: Seq<(Seq<char>, Seq<char>)>, p: Platform) -> Option<
    ConfigErrorView,
>
    decreases entries.len(),
{
    if entries.len() == 0 {
        None
    } else {
        match overrides_error(entries.drop_last(), p) {
            Some(e) => Some(e),
            None => override_error(entries.last(), p),
        }
    }
}

/// Some source directory is the empty path.
pub open spec fn has_empty_source(dirs: Seq<Seq<char>>) -> bool {
    exists|i: int| 0 <= i < dirs.len() && #[trigger] dirs[i].len() == 0
}

/// The first problem of a configuration: its `[[categories]]` rules, then
/// its source directories, then its `[extensions]` entries.
pub open spec fn config_error(c: ConfigView, p: Platform) -> Option<ConfigErrorView> {
    match categories_error(c.categories, p) {
        Some(e) => Some(e),
        None => if has_empty_source(c.source_directories) {
            Some(ConfigErrorView::EmptySourceDirectory)
        } else {
            overrides_error(c.extensions, p)
        },
    }
}

pub proof fn lemma_overrides_error_prefix(entries: Seq<(Seq<char>, Seq<char>)>, k: int, p: Platform)
    requires
        0 <= k <= entries.len(),
        overrides_error(entries.take(k), p) is Some,
    ensures
        overrides_error(entries, p) == overrides_error(entries.take(k), p),
    decreases entries.len(),
{
    if k == entries.len() {
        assert(entries.take(k) =~= entries);
    } else {
        assert(entries.drop_last().take(k) =~= entries.take(k));
        lemma_overrides_error_prefix(entries.drop_last(), k, p);
    }
}

/// Checks a configuration, stopping at the first problem.
#[verifier::loop_isolation(false)]
pub fn validate_config(config: &Config, platform: Platform) -> (r: Result<(), ConfigError>)
    ensures
        r is Ok <==> config_error(config@, platform) is None,
        r matches Err(e) ==> config_error(config@, platform) == Some(e@),
{
    validate_categories(config.categories.as_slice(), platform)?;
    let ghost dirs = config@.source_directories;
    let mut i: usize = 0;
    while i < config.source_directories.len()
        invariant
            i <= config.source_directories@.len(),
            forall|j: int| 0 <= j < i ==> #[trigger] dirs[j].len() != 0,
        decreases config.source_directories.len() - i,
    {
        assert(dirs[i as int] == config.source_directories@[i as int]@);
        if config.source_directories[i].as_str().unicode_len() == 0 {
            return Err(ConfigError::EmptySourceDirectory);
        }
        i = i + 1;
    }
    let ghost entries = config@.extensions;
    let mut k: usize = 0;
    assert(entries.take(0) =~= Seq::<(Seq<char>, Seq<char>)>::empty());
    while k < config.extensions.len()
        invariant
            k <= config.extensions@.len(),
            overrides_error(entries.take(k as int), platform) is None,
        decreases config.extensions.len() - k,
    {
        let entry = &config.extensions[k];
        assert(entries[k as int] == (entry.0@, entry.1@));
        assert(entries.take(k + 1).drop_last() =~= entries.take(k as int));
        assert(entries.take(k + 1).last() == entries[k as int]);
        if is_blank_str(entry.0.as_str()) || is_blank_str(entry.1.as_str()) {
            proof {
                lemma_overrides_error_prefix(entries, k + 1, platform);
            }
            return Err(ConfigError::EmptyExtensionOverride);
        }
        if is_unsafe_category_name(entry.1.as_str(), platform) {
            proof {
                lemma_overrides_error_prefix(entries, k + 1, platform);
            }
            return Err(ConfigError::UnsafeOverrideCategory(entry.1.clone()));
        }
        k = k + 1;
    }
    assert(entries.take(config.extensions@.len() as int) =~= entries);
    Ok(())
}

// ---------------------------------------------------------------------------
// Home expansion, loading and source precedence
// ---------------------------------------------------------------------------

/// `~` is the home directory and `~/rest` is `home.join(rest)`, joined with
/// the separators of `platform`; every other path is left as it is.
pub open spec fn expand_home_path(p: Seq<char>, home: Seq<char>, platform: Platform) -> Seq<char> {
    if p == seq!['~'] {
        home
    } else if starts_with(p, seq!['~', '/']) {
        join_native(home, p.subrange(2, p.len() as int), platform)
    } else {
        p
    }
}

/// Home expansion: `~` alone is the home directory, `~/rest` is `rest`
/// joined onto it, and any other path (`~user/x`, `/srv`, `x~`) is kept as
/// it is.
pub proof fn law_home_expansion(rest: Seq<char>, path: Seq<char>, home: Seq<char>, platform: Platform)
    ensures
        expand_home_path(seq!['~'], home, platform) == home,
        expand_home_path(seq!['~', '/'] + rest, home, platform) == join_native(home, rest, platform),
        !(path.len() == 1 && path[0] == '~') && !(path.len() >= 2 && path[0] == '~' && path[1] == '/')
            ==> expand_home_path(path, home, platform) == path,
{
    let t = seq!['~', '/'] + rest;
    assert(t.subrange(0, 2) =~= seq!['~', '/']);
    assert(t.subrange(2, t.len() as int) =~= rest);
    assert(t != seq!['~']) by {
        assert(t.len() != 1);
    }
    if path == seq!['~'] {
        assert(path.len() == 1 && path[0] == '~');
    }
    if starts_with(path, seq!['~', '/']) {
        assert(path.subrange(0, 2)[0] == path[0] && path.subrange(0, 2)[1] == path[1]);
    }
}

/// Expands a leading `~` of `path` against `home`.
pub fn expand_home(path: &str, home: &str, platform: Platform) -> (r: String)
    ensures
        r@ == expand_home_path(path@, home@, platform),
{
    proof {
        reveal_strlit("~");
        reveal_strlit("~/");
        assert("~"@ =~= seq!['~']);
        assert("~/"@ =~= seq!['~', '/']);
    }
    if str_eq(path, "~") {
        return owned(home);
    }
    match strip_prefix_str(path, "~/") {
        Some(rest) => join_native_exec(home, rest, platform),
        None => owned(path),
    }
}

/// `c` with its source directories replaced.
pub open spec fn with_sources(c: ConfigView, dirs: Seq<Seq<char>>) -> ConfigView {
    ConfigView {
        source_directories: dirs,
        recursive: c.recursive,
        on_conflict: c.on_conflict,
        min_age_seconds: c.min_age_seconds,
        ignore_hidden: c.ignore_hidden,
        log_file: c.log_file,
        extensions: c.extensions,
        categories: c.categories,
    }
}

/// `c` with `~` expanded in its source directories and its log file.
pub open spec fn expanded_config(c: ConfigView, home: Seq<char>, platform: Platform) -> ConfigView {
    ConfigView {
        source_directories: c.source_directories.map_values(|d: Seq<char>| expand_home_path(d, home, platform)),
        recursive: c.recursive,
        on_conflict: c.on_conflict,
        min_age_seconds: c.min_age_seconds,
        ignore_hidden: c.ignore_hidden,
        log_file: match c.log_file {
            Some(f) => Some(expand_home_path(f, home, platform)),
            None => None,
        },
        extensions: c.extensions,
        categories: c.categories,
    }
}

/// Finishes a configuration read from a file: expands `~` in the source
/// directories and the log file, then validates the result.
pub fn prepare_loaded_config(config: Config, home: &str, platform: Platform) -> (r: Result<
    Config,
    ConfigError,
>)
    ensures
        r matches Ok(c) ==> c@ == expanded_config(config@, home@, platform) && config_error(c@, platform) is None,
        r matches Err(e) ==> config_error(expanded_config(config@, home@, platform), platform) == Some(e@),
{
    let ghost start = config@;
    let mut config = config;
    let mut dirs: Vec<String> = Vec::new();
    let mut i: usize = 0;
    while i < config.source_directories.len()
        invariant
            i <= config.source_directories@.len(),
            config@ == start,
            strings_view(dirs@) == start.source_directories.take(i as int).map_values(
                |d: Seq<char>| expand_home_path(d, home@, platform),
            ),
        decreases config.source_directories.len() - i,
    {
        let e = expand_home(config.source_directories[i].as_str(), home, platform);
        let ghost before = strings_view(dirs@);
        dirs.push(e);
        assert(start.source_directories[i as int] == config.source_directories@[i as int]@);
        assert(strings_view(dirs@) =~= before.push(e@));
        assert(start.source_directories.take(i + 1) =~= start.source_directories.take(i as int).push(
            start.source_directories[i as int],
        ));
        assert(strings_view(dirs@) =~= start.source_directories.take(i + 1).map_values(
            |d: Seq<char>| expand_home_path(d, home@, platform),
        ));
        i = i + 1;
    }
    assert(start.source_directories.take(config.source_directories@.len() as int)
        =~= start.source_directories);
    let log_file = match &config.log_file {
        Some(f) => Some(expand_home(f.as_str(), home, platform)),
        None => None,
    };
    config.source_directories = dirs;
    config.log_file = log_file;
    assert(config@.source_directories =~= expanded_config(start, home@, platform).source_directories);
    assert(config@ == expanded_config(start, home@, platform));
    match validate_config(&config, platform) {
        Ok(()) => Ok(config),
        Err(e) => Err(e),
    }
}

/// Whether a configuration file is read: always when `--config` names one,
/// and otherwise only when the default path exists (first run falls back
/// to `Config::default()`).
pub fn loads_config_file(cli_config_given: bool, config_path_exists: bool) -> (r: bool)
    ensures
        r == (cli_config_given || config_path_exists),
{
    cli_config_given || config_path_exists
}

/// The source directories after precedence: positional directories, then
/// the configured ones, then the detected Downloads directory.
pub open spec fn resolved_sources(
    positional: Seq<Seq<char>>,
    configured: Seq<Seq<char>>,
    detected: Option<Seq<char>>,
) -> Seq<Seq<char>> {
    if positional.len() > 0 {
        positional
    } else if configured.len() > 0 {
        configured
    } else {
        match detected {
            Some(d) => seq![d],
            None => Seq::empty(),
        }
    }
}

/// Downloads detection is consulted only when neither positional
/// directories nor configured ones are present.
pub fn needs_downloads_detection(config: &Config, positional_dirs: &[String]) -> (r: bool)
    ensures
        r == (positional_dirs@.len() == 0 && config.source_directories@.len() == 0),
{
    positional_dirs.len() == 0 && config.source_directories.len() == 0
}

/// Applies source precedence to a configuration: CLI positional directories
/// win, then the configured `source_directories`, then the detected
/// Downloads directory (only consulted when both are empty).
pub fn resolve_config(config: Config, positional_dirs: &[String], detected: Option<String>) -> (r: Config)
    ensures
        r@ == with_sources(
            config@,
            resolved_sources(strings_view(positional_dirs@), config@.source_directories, opt_string_view(detected)),
        ),
{
    let ghost start = config@;
    let mut config = config;
    if positional_dirs.len() > 0 {
        let mut dirs: Vec<String> = Vec::new();
        let mut i: usize = 0;
        while i < positional_dirs.len()
            invariant
                i <= positional_dirs@.len(),
                strings_view(dirs@) == strings_view(positional_dirs@).take(i as int),
            decreases positional_dirs.len() - i,
        {
            let ghost before = strings_view(dirs@);
            let x = positional_dirs[i].clone();
            assert(x@ == strings_view(positional_dirs@)[i as int]);
            dirs.push(x);
            assert(strings_view(dirs@) =~= before.push(x@));
            assert(strings_view(positional_dirs@).take(i + 1) =~= strings_view(positional_dirs@).take(i as int).push(x@));
            assert(strings_view(dirs@) =~= strings_view(positional_dirs@).take(i + 1));
            i = i + 1;
        }
        assert(strings_view(positional_dirs@).take(positional_dirs@.len() as int) =~= strings_view(positional_dirs@));
        config.source_directories = dirs;
    } else if config.source_directories.len() == 0 {
        if let Some(d) = detected {
            let ghost dv = d@;
            config.source_directories.push(d);
            assert(strings_view(config.source_directories@) =~= seq![dv]);
        }
    }
    assert(config@.source_directories =~= resolved_sources(strings_view(positional_dirs@), start.source_directories, opt_string_view(detected)));
    config
}


// ---------------------------------------------------------------------------
// Laws
// ---------------------------------------------------------------------------

proof fn lemma_no_rule_error(rules: Seq<RuleView>, p: Platform)
    requires
        categories_error(rules, p) is None,
    ensures
        forall|i: int| 0 <= i < rules.len() ==> rule_error(#[trigger] rules[i], rules.take(i), p) is None,
    decreases rules.len(),
{
    if rules.len() > 0 {
        let q = rules.drop_last();
        lemma_no_rule_error(q, p);
        assert forall|i: int| 0 <= i < rules.len() implies rule_error(#[trigger] rules[i], rules.take(i), p) is None by {
            if i < q.len() {
                assert(q[i] == rules[i]);
                assert(q.take(i) =~= rules.take(i));
            } else {
                assert(q =~= rules.take(i));
            }
        }
    }
}

proof fn lemma_no_override_error(entries: Seq<(Seq<char>, Seq<char>)>, p: Platform)
    requires
        overrides_error(entries, p) is None,
    ensures
        forall|i: int| 0 <= i < entries.len() ==> override_error(#[trigger] entries[i], p) is None,
    decreases entries.len(),
{
    if entries.len() > 0 {
        let q = entries.drop_last();
        lemma_no_override_error(q, p);
        assert forall|i: int| 0 <= i < entries.len() implies override_error(#[trigger] entries[i], p) is None by {
            if i < q.len() {
                assert(q[i] == entries[i]);
            }
        }
    }
}

/// What an accepted configuration guarantees: every category name is
/// non-blank, safe and declared once; every rule lists at least one
/// extension and none is blank; no source directory is empty; every
/// `[extensions]` entry has a non-blank key and a non-blank, safe category.
pub proof fn law_accepted_config_is_well_formed(c: ConfigView, p: Platform)
    requires
        config_error(c, p) is None,
    ensures
        forall|i: int| 0 <= i < c.categories.len() ==> {
            &&& !is_blank(#[trigger] c.categories[i].name)
            &&& !is_unsafe_name(c.categories[i].name, p)
            &&& c.categories[i].extensions.len() > 0
            &&& forall|j: int| 0 <= j < c.categories[i].extensions.len() ==> !is_blank(#[trigger] c.categories[i].extensions[j])
        },
        forall|i: int, j: int| 0 <= i < j < c.categories.len() ==> #[trigger] c.categories[i].name != #[trigger] c.categories[j].name,
        forall|i: int| 0 <= i < c.source_directories.len() ==> #[trigger] c.source_directories[i].len() > 0,
        forall|i: int| 0 <= i < c.extensions.len() ==> {
            &&& !is_blank(#[trigger] c.extensions[i].0)
            &&& !is_blank(c.extensions[i].1)
            &&& !is_unsafe_name(c.extensions[i].1, p)
        },
{
    lemma_no_rule_error(c.categories, p);
    lemma_no_override_error(c.extensions, p);
    assert forall|i: int, j: int| 0 <= i < j < c.categories.len() implies #[trigger] c.categories[i].name != #[trigger] c.categories[j].name by {
        assert(rule_error(c.categories[j], c.categories.take(j), p) is None);
        assert(c.categories.take(j)[i] == c.categories[i]);
    }
    assert forall|i: int| 0 <= i < c.source_directories.len() implies #[trigger] c.source_directories[i].len() > 0 by {
        if c.source_directories[i].len() == 0 {
            assert(has_empty_source(c.source_directories));
        }
    }
}

/// Source precedence: positional directories, when given, are the sources;
/// otherwise configured ones; the detected directory is used only when
/// both are empty.
pub proof fn law_source_precedence(
    positional: Seq<Seq<char>>,
    configured: Seq<Seq<char>>,
    detected: Option<Seq<char>>,
    other: Option<Seq<char>>,
)
    ensures
        positional.len() > 0 ==> resolved_sources(positional, configured, detected) == positional,
        positional.len() == 0 && configured.len() > 0 ==> resolved_sources(positional, configured, detected) == configured,
        positional.len() > 0 || configured.len() > 0 ==> resolved_sources(positional, configured, detected) == resolved_sources(positional, configured, other),
        positional.len() == 0 && configured.len() == 0 ==> resolved_sources(positional, configured, detected) == match detected {
            Some(d) => seq![d],
            None => Seq::<Seq<char>>::empty(),
        },
{
}

} // verus!
