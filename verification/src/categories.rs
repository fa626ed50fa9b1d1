//! Classification rules: built-in defaults, user `[[categories]]`
//! resolution, and the set of generated category names.

use vstd::prelude::*;

use crate::category_map::{without_value, CategoryMap};
use crate::config::{Config, ConfigView};
use crate::config::{ConfigErrorView, ConfigError};
use crate::paths::{file_name, file_name_of, has_root, join_path, join_path_exec, path_starts_with, path_starts_with_exec};
use crate::text::{ascii_lower, ascii_lower_char, is_blank, lemma_lex_total, lemma_lex_transitive, lex_lt, str_lt, strictly_sorted, is_blank_str, last_index_of, last_index_of_char, owned, split_by, split_str, str_eq, to_ascii_lower, lemma_last_index_of_split, lemma_last_index_of_absent, lemma_split_by_concat, lemma_split_by_single, lemma_split_by_nonempty};

verus! {

/// The category of unknown extensions and of files without one.
pub const DEFAULT_CATEGORY: &'static str = "Other";

/// User-supplied category declaration. `replace = false` supplements the
/// built-in list of that name; `replace = true` substitutes it.
#[derive(Debug, Clone)]
pub struct CategoryRule {
    pub name: String,
    pub extensions: Vec<String>,
    pub replace: bool,
}

/// The abstract value of a [`CategoryRule`].
pub struct RuleView {
    pub name: Seq<char>,
    pub extensions: Seq<Seq<char>>,
    pub replace: bool,
}

impl View for CategoryRule {
    type V = RuleView;

    open spec fn view(&self) -> RuleView {
        RuleView {
            name: self.name@,
            extensions: self.extensions@.map_values(|e: String| e@),
            replace: self.replace,
        }
    }
}


// ---------------------------------------------------------------------------
// Built-in table
// ---------------------------------------------------------------------------

pub open spec fn image_extensions() -> Seq<Seq<char>> {
    seq!["jpg"@, "jpeg"@, "png"@, "gif"@, "webp"@, "heic"@, "svg"@, "tiff"@, "tif"@]
}

pub open spec fn video_extensions() -> Seq<Seq<char>> {
    seq!["mp4"@, "mov"@, "mkv"@, "avi"@, "webm"@, "m4v"@]
}

pub open spec fn audio_extensions() -> Seq<Seq<char>> {
    seq!["mp3"@, "m4a"@, "wav"@, "flac"@, "ogg"@, "aac"@]
}

pub open spec fn text_extensions() -> Seq<Seq<char>> {
    seq![
        "txt"@, "md"@, "rtf"@, "doc"@, "docx"@, "pages"@, "pdf"@, "xlsx"@, "xls"@, "pptx"@,
        "ppt"@, "key"@, "numbers"@, "csv"@, "epub"@, "odt"@, "ods"@, "odp"@, "log"@, "tex"@,
    ]
}

pub open spec fn executable_extensions() -> Seq<Seq<char>> {
    seq!["dmg"@, "pkg"@, "msi"@, "exe"@, "deb"@, "rpm"@]
}

pub open spec fn compressed_extensions() -> Seq<Seq<char>> {
    seq!["zip"@, "rar"@, "7z"@, "tar"@, "gz"@, "bz2"@, "xz"@]
}

/// The built-in table as `(category, extensions)` groups, in table order.
pub open spec fn builtin_groups() -> Seq<(Seq<char>, Seq<Seq<char>>)> {
    seq![
        ("Image"@, image_extensions()),
        ("Video"@, video_extensions()),
        ("Audio"@, audio_extensions()),
        ("Text"@, text_extensions()),
        ("Executable"@, executable_extensions()),
        ("Compressed"@, compressed_extensions()),
    ]
}

/// `m` with every key of `keys` mapped to `value`, inserted in order.
pub open spec fn insert_all(m: Map<Seq<char>, Seq<char>>, keys: Seq<Seq<char>>, value: Seq<char>) -> Map<
    Seq<char>,
    Seq<char>,
>
    decreases keys.len(),
{
    if keys.len() == 0 {
        m
    } else {
        insert_all(m, keys.drop_last(), value).insert(keys.last(), value)
    }
}

/// `m` with every group inserted in order.
pub open spec fn insert_groups(m: Map<Seq<char>, Seq<char>>, groups: Seq<(Seq<char>, Seq<Seq<char>>)>) -> Map<
    Seq<char>,
    Seq<char>,
>
    decreases groups.len(),
{
    if groups.len() == 0 {
        m
    } else {
        insert_all(insert_groups(m, groups.drop_last()), groups.last().1, groups.last().0)
    }
}

/// The built-in map from lower-case extension to category.
pub open spec fn builtin_categories() -> Map<Seq<char>, Seq<char>> {
    insert_groups(Map::empty(), builtin_groups())
}

/// The characters of each string slice.
pub open spec fn strs_view(v: Seq<&str>) -> Seq<Seq<char>> {
    v.map_values(|e: &str| e@)
}

fn image_extension_list() -> (r: Vec<&'static str>)
    ensures
        strs_view(r@) == image_extensions(),
{
    let r = vec!["jpg", "jpeg", "png", "gif", "webp", "heic", "svg", "tiff", "tif"];
    assert(strs_view(r@) =~= image_extensions());
    r
}

fn video_extension_list() -> (r: Vec<&'static str>)
    ensures
        strs_view(r@) == video_extensions(),
{
    let r = vec!["mp4", "mov", "mkv", "avi", "webm", "m4v"];
    assert(strs_view(r@) =~= video_extensions());
    r
}

fn audio_extension_list() -> (r: Vec<&'static str>)
    ensures
        strs_view(r@) == audio_extensions(),
{
    let r = vec!["mp3", "m4a", "wav", "flac", "ogg", "aac"];
    assert(strs_view(r@) =~= audio_extensions());
    r
}

fn text_extension_list() -> (r: Vec<&'static str>)
    ensures
        strs_view(r@) == text_extensions(),
{
    let r = vec![
        "txt", "md", "rtf", "doc", "docx", "pages", "pdf", "xlsx", "xls", "pptx", "ppt", "key",
        "numbers", "csv", "epub", "odt", "ods", "odp", "log", "tex",
    ];
    assert(strs_view(r@) =~= text_extensions());
    r
}

fn executable_extension_list() -> (r: Vec<&'static str>)
    ensures
        strs_view(r@) == executable_extensions(),
{
    let r = vec!["dmg", "pkg", "msi", "exe", "deb", "rpm"];
    assert(strs_view(r@) =~= executable_extensions());
    r
}

fn compressed_extension_list() -> (r: Vec<&'static str>)
    ensures
        strs_view(r@) == compressed_extensions(),
{
    let r = vec!["zip", "rar", "7z", "tar", "gz", "bz2", "xz"];
    assert(strs_view(r@) =~= compressed_extensions());
    r
}

/// Maps every extension of `extensions` to `name`.
fn insert_group(map: &mut CategoryMap, extensions: &Vec<&'static str>, name: &str)
    ensures
        final(map)@ == insert_all(old(map)@, strs_view(extensions@), name@),
{
    let ghost start = map@;
    let ghost keys = strs_view(extensions@);
    let mut i: usize = 0;
    assert(keys.take(0) =~= Seq::<Seq<char>>::empty());
    while i < extensions.len()
        invariant
            i <= extensions@.len(),
            keys == strs_view(extensions@),
            map@ == insert_all(start, keys.take(i as int), name@),
        decreases extensions.len() - i,
    {
        assert(keys.take(i + 1).drop_last() =~= keys.take(i as int));
        map.insert(owned(extensions[i]), owned(name));
        i = i + 1;
    }
    assert(keys.take(extensions@.len() as int) =~= keys);
}

/// The built-in table: extension (lower case, ASCII) to category name.
pub fn default_categories() -> (r: CategoryMap)
    ensures
        r@ == builtin_categories(),
{
    let mut map = CategoryMap::new();
    insert_group(&mut map, &image_extension_list(), "Image");
    insert_group(&mut map, &video_extension_list(), "Video");
    insert_group(&mut map, &audio_extension_list(), "Audio");
    insert_group(&mut map, &text_extension_list(), "Text");
    insert_group(&mut map, &executable_extension_list(), "Executable");
    insert_group(&mut map, &compressed_extension_list(), "Compressed");
    proof {
        let g = builtin_groups();
        assert(g.take(0) =~= Seq::<(Seq<char>, Seq<Seq<char>>)>::empty());
        assert(g.take(1).drop_last() =~= g.take(0));
        assert(g.take(1).last() == g[0]);
        assert(g.take(2).drop_last() =~= g.take(1));
        assert(g.take(2).last() == g[1]);
        assert(g.take(3).drop_last() =~= g.take(2));
        assert(g.take(3).last() == g[2]);
        assert(g.take(4).drop_last() =~= g.take(3));
        assert(g.take(4).last() == g[3]);
        assert(g.take(5).drop_last() =~= g.take(4));
        assert(g.take(5).last() == g[4]);
        assert(g.take(6).drop_last() =~= g.take(5));
        assert(g.take(6).last() == g[5]);
        assert(g.take(6) =~= g);
        assert(insert_groups(Map::empty(), g.take(0)) == Map::<Seq<char>, Seq<char>>::empty());
        assert(insert_groups(Map::empty(), g.take(1)) == insert_all(Map::empty(), image_extensions(), "Image"@));
        assert(insert_groups(Map::empty(), g.take(2)) == insert_all(insert_groups(Map::empty(), g.take(1)), video_extensions(), "Video"@));
        assert(insert_groups(Map::empty(), g.take(3)) == insert_all(insert_groups(Map::empty(), g.take(2)), audio_extensions(), "Audio"@));
        assert(insert_groups(Map::empty(), g.take(4)) == insert_all(insert_groups(Map::empty(), g.take(3)), text_extensions(), "Text"@));
        assert(insert_groups(Map::empty(), g.take(5)) == insert_all(insert_groups(Map::empty(), g.take(4)), executable_extensions(), "Executable"@));
        assert(insert_groups(Map::empty(), g.take(6)) == insert_all(insert_groups(Map::empty(), g.take(5)), compressed_extensions(), "Compressed"@));
    }
    map
}


// ---------------------------------------------------------------------------
// Resolution: built-ins, then `[[categories]]`, then `[extensions]`
// ---------------------------------------------------------------------------

/// Each extension in ASCII lower case.
pub open spec fn lowered(extensions: Seq<Seq<char>>) -> Seq<Seq<char>> {
    extensions.map_values(|e: Seq<char>| ascii_lower(e))
}

/// One `[[categories]]` rule: with `replace`, the entries of that category
/// are dropped first; then each of its extensions maps to its name.
pub open spec fn apply_rule(m: Map<Seq<char>, Seq<char>>, rule: RuleView) -> Map<Seq<char>, Seq<char>> {
    let base = if rule.replace {
        without_value(m, rule.name)
    } else {
        m
    };
    insert_all(base, lowered(rule.extensions), rule.name)
}

/// The rules applied in declaration order.
pub open spec fn apply_rules(m: Map<Seq<char>, Seq<char>>, rules: Seq<RuleView>) -> Map<
    Seq<char>,
    Seq<char>,
>
    decreases rules.len(),
{
    if rules.len() == 0 {
        m
    } else {
        apply_rule(apply_rules(m, rules.drop_last()), rules.last())
    }
}

/// The `[extensions]` overrides applied in order, each key in lower case.
pub open spec fn apply_overrides(m: Map<Seq<char>, Seq<char>>, overrides: Seq<(Seq<char>, Seq<char>)>) -> Map<
    Seq<char>,
    Seq<char>,
>
    decreases overrides.len(),
{
    if overrides.len() == 0 {
        m
    } else {
        apply_overrides(m, overrides.drop_last()).insert(
            ascii_lower(overrides.last().0),
            overrides.last().1,
        )
    }
}

/// The composed resolution map of a configuration.
pub open spec fn composed_categories(c: ConfigView) -> Map<Seq<char>, Seq<char>> {
    apply_overrides(apply_rules(builtin_categories(), c.categories), c.extensions)
}

/// One-shot composition of the resolution map: built-ins, then
/// `[[categories]]` (with `replace` consumed), then `[extensions]`, where the
/// last write wins.
pub fn apply_categories(config: &Config) -> (r: CategoryMap)
    ensures
        r@ == composed_categories(config@),
{
    let mut map = default_categories();
    let ghost rules = config@.categories;
    let mut i: usize = 0;
    assert(rules.take(0) =~= Seq::<RuleView>::empty());
    while i < config.categories.len()
        invariant
            i <= config.categories@.len(),
            rules == config@.categories,
            map@ == apply_rules(builtin_categories(), rules.take(i as int)),
        decreases config.categories.len() - i,
    {
        let rule = &config.categories[i];
        assert(rule@ == rules[i as int]);
        assert(rules.take(i + 1).drop_last() =~= rules.take(i as int));
        assert(rules.take(i + 1).last() == rule@);
        let ghost prev = map@;
        if rule.replace {
            map.remove_value(rule.name.as_str());
        }
        let ghost base = map@;
        let ghost keys = lowered(rule@.extensions);
        let mut j: usize = 0;
        assert(keys.take(0) =~= Seq::<Seq<char>>::empty());
        while j < rule.extensions.len()
            invariant
                j <= rule.extensions@.len(),
                keys == lowered(rule@.extensions),
                map@ == insert_all(base, keys.take(j as int), rule.name@),
            decreases rule.extensions.len() - j,
        {
            assert(keys.take(j + 1).drop_last() =~= keys.take(j as int));
            assert(keys[j as int] == ascii_lower(rule.extensions@[j as int]@));
            let key = to_ascii_lower(rule.extensions[j].as_str());
            map.insert(key, rule.name.clone());
            j = j + 1;
        }
        assert(keys.take(rule.extensions@.len() as int) =~= keys);
        i = i + 1;
    }
    assert(rules.take(config.categories@.len() as int) =~= rules);
    let ghost after_rules = map@;
    let ghost overrides = config@.extensions;
    let mut k: usize = 0;
    assert(overrides.take(0) =~= Seq::<(Seq<char>, Seq<char>)>::empty());
    while k < config.extensions.len()
        invariant
            k <= config.extensions@.len(),
            overrides == config@.extensions,
            map@ == apply_overrides(after_rules, overrides.take(k as int)),
        decreases config.extensions.len() - k,
    {
        assert(overrides.take(k + 1).drop_last() =~= overrides.take(k as int));
        assert(overrides.take(k + 1).last() == overrides[k as int]);
        let key = to_ascii_lower(config.extensions[k].0.as_str());
        map.insert(key, config.extensions[k].1.clone());
        k = k + 1;
    }
    assert(overrides.take(config.extensions@.len() as int) =~= overrides);
    map
}

// ---------------------------------------------------------------------------
// Classification
// ---------------------------------------------------------------------------

/// The text after the last dot of a file name (`rsplit_once('.')`), if the
/// name has a dot.
pub open spec fn extension_of(name: Seq<char>) -> Option<Seq<char>> {
    let i = last_index_of(name, '.');
    if i < 0 {
        None
    } else {
        Some(name.subrange(i + 1, name.len() as int))
    }
}

/// The category of a file with the given file name: its extension in ASCII
/// lower case looked up in `m`, and the default category when there is no
/// file name, no extension, an empty one or an unknown one.
pub open spec fn category_of_name(name: Option<Seq<char>>, m: Map<Seq<char>, Seq<char>>) -> Seq<char> {
    match name {
        None => DEFAULT_CATEGORY@,
        Some(n) => match extension_of(n) {
            None => DEFAULT_CATEGORY@,
            Some(e) => if e.len() == 0 {
                DEFAULT_CATEGORY@
            } else if m.dom().contains(ascii_lower(e)) {
                m[ascii_lower(e)]
            } else {
                DEFAULT_CATEGORY@
            },
        },
    }
}

/// The category of `path` under an already composed map.
pub fn classify(path: &str, composed: &CategoryMap) -> (r: String)
    ensures
        r@ == category_of_name(file_name_of(path@), composed@),
{
    let name = match file_name(path) {
        Some(n) => n,
        None => return owned(DEFAULT_CATEGORY),
    };
    let dot = match last_index_of_char(name.as_str(), '.') {
        Some(i) => i,
        None => return owned(DEFAULT_CATEGORY),
    };
    proof {
        crate::text::lemma_last_index_of_bounds(name@, '.');
    }
    let n = name.as_str().unicode_len();
    let extension = name.as_str().substring_char(dot + 1, n);
    if extension.unicode_len() == 0 {
        return owned(DEFAULT_CATEGORY);
    }
    let key = to_ascii_lower(extension);
    match composed.get(key.as_str()) {
        Some(category) => category.clone(),
        None => owned(DEFAULT_CATEGORY),
    }
}

/// The category of `path`, composing the resolution map on the fly.
pub fn category_for(path: &str, config: &Config) -> (r: String)
    ensures
        r@ == category_of_name(file_name_of(path@), composed_categories(config@)),
{
    let composed = apply_categories(config);
    classify(path, &composed)
}


// ---------------------------------------------------------------------------
// Generated category names
// ---------------------------------------------------------------------------

/// The category names of the built-in table.
pub open spec fn builtin_names() -> Seq<Seq<char>> {
    builtin_groups().map_values(|g: (Seq<char>, Seq<Seq<char>>)| g.0)
}

/// The names of the `[[categories]]` rules.
pub open spec fn rule_names(rules: Seq<RuleView>) -> Seq<Seq<char>> {
    rules.map_values(|r: RuleView| r.name)
}

/// `x` names a generated category directory: the default category, a
/// built-in category or the name of a `[[categories]]` rule.
pub open spec fn is_generated_name(c: ConfigView, x: Seq<char>) -> bool {
    ||| x == DEFAULT_CATEGORY@
    ||| builtin_names().contains(x)
    ||| rule_names(c.categories).contains(x)
}

/// Adds `name` to the sorted `names` unless it is already there, keeping
/// them sorted (`BTreeSet::insert`).
fn insert_name(names: &mut Vec<String>, name: String)
    requires
        strictly_sorted(strs_of(old(names)@)),
    ensures
        forall|x: Seq<char>| #[trigger] strs_of(final(names)@).contains(x) <==> strs_of(old(names)@).contains(x) || x == name@,
        strictly_sorted(strs_of(final(names)@)),
{
    let ghost before = strs_of(names@);
    let mut i: usize = 0;
    while i < names.len() && str_lt(names[i].as_str(), name.as_str())
        invariant
            i <= names@.len(),
            before == strs_of(names@),
            forall|j: int| 0 <= j < i ==> lex_lt(#[trigger] before[j], name@),
        decreases names.len() - i,
    {
        assert(before[i as int] == names@[i as int]@);
        i = i + 1;
    }
    if i < names.len() && names[i] == name {
        assert(before[i as int] == name@);
        assert(before.contains(name@));
        return;
    }
    let ghost n = name@;
    proof {
        if i < before.len() {
            assert(before[i as int] == names@[i as int]@);
            lemma_lex_total(before[i as int], n);
            assert forall|k: int| i <= k < before.len() implies lex_lt(n, #[trigger] before[k]) by {
                if k > i {
                    lemma_lex_transitive(n, before[i as int], before[k]);
                }
            }
        }
    }
    names.insert(i, name);
    proof {
        let after = strs_of(names@);
        assert(after =~= before.insert(i as int, n));
        assert forall|a: int, b: int| 0 <= a < b < after.len() implies lex_lt(#[trigger] after[a], #[trigger] after[b]) by {
            if b < i {
                assert(after[a] == before[a] && after[b] == before[b]);
            } else if b == i {
                assert(after[a] == before[a]);
            } else if a == i {
                assert(after[b] == before[b - 1]);
            } else if a < i {
                assert(after[a] == before[a] && after[b] == before[b - 1]);
                lemma_lex_transitive(before[a], n, before[b - 1]);
            } else {
                assert(after[a] == before[a - 1] && after[b] == before[b - 1]);
            }
        }
        assert forall|x: Seq<char>| #[trigger] after.contains(x) <==> before.contains(x) || x == n by {
            if after.contains(x) {
                let j = choose|j: int| 0 <= j < after.len() && after[j] == x;
                if j < i {
                    assert(before[j] == x);
                } else if j > i {
                    assert(before[j - 1] == x);
                }
            }
            if before.contains(x) {
                let j = choose|j: int| 0 <= j < before.len() && before[j] == x;
                if j < i {
                    assert(after[j] == x);
                } else {
                    assert(after[j + 1] == x);
                }
            }
            if x == n {
                assert(after[i as int] == x);
            }
        }
    }
}

/// The characters of each string.
pub open spec fn strs_of(v: Seq<String>) -> Seq<Seq<char>> {
    v.map_values(|s: String| s@)
}

/// The generated category names, sorted (`BTreeSet` order): always the
/// default category and the built-in names, plus the name of every
/// `[[categories]]` rule. Each name occurs once.
pub fn is_generated_category_set(config: &Config) -> (r: Vec<String>)
    ensures
        forall|x: Seq<char>| #[trigger] strs_of(r@).contains(x) <==> is_generated_name(config@, x),
        strictly_sorted(strs_of(r@)),
{
    let mut names: Vec<String> = Vec::new();
    assert(strs_of(names@) =~= Seq::<Seq<char>>::empty());
    insert_name(&mut names, owned(DEFAULT_CATEGORY));
    insert_name(&mut names, owned("Image"));
    insert_name(&mut names, owned("Video"));
    insert_name(&mut names, owned("Audio"));
    insert_name(&mut names, owned("Text"));
    insert_name(&mut names, owned("Executable"));
    insert_name(&mut names, owned("Compressed"));
    let ghost rules = config@.categories;
    proof {
        let b = builtin_names();
        assert(b[0] == "Image"@ && b[1] == "Video"@ && b[2] == "Audio"@);
        assert(b[3] == "Text"@ && b[4] == "Executable"@ && b[5] == "Compressed"@);
        assert forall|x: Seq<char>| b.contains(x) <==> (x == "Image"@ || x == "Video"@ || x == "Audio"@ || x == "Text"@ || x == "Executable"@ || x == "Compressed"@) by {
            if b.contains(x) {
                let j = choose|j: int| 0 <= j < b.len() && b[j] == x;
            }
        }
        assert(rule_names(rules).take(0) =~= Seq::<Seq<char>>::empty());
    }
    let mut i: usize = 0;
    while i < config.categories.len()
        invariant
            i <= config.categories@.len(),
            rules == config@.categories,
            strictly_sorted(strs_of(names@)),
            forall|x: Seq<char>| #[trigger] strs_of(names@).contains(x) <==> (x == DEFAULT_CATEGORY@ || builtin_names().contains(x) || rule_names(rules).take(i as int).contains(x)),
        decreases config.categories.len() - i,
    {
        let ghost t = rule_names(rules).take(i as int);
        let ghost t1 = rule_names(rules).take(i + 1);
        assert(t1 =~= t.push(config.categories@[i as int].name@));
        assert forall|x: Seq<char>| t1.contains(x) <==> t.contains(x) || x == config.categories@[i as int].name@ by {
            if t1.contains(x) {
                let j = choose|j: int| 0 <= j < t1.len() && t1[j] == x;
                if j < t.len() {
                    assert(t[j] == x);
                }
            }
            if t.contains(x) {
                let j = choose|j: int| 0 <= j < t.len() && t[j] == x;
                assert(t1[j] == x);
            }
            if x == config.categories@[i as int].name@ {
                assert(t1[i as int] == x);
            }
        }
        insert_name(&mut names, config.categories[i].name.clone());
        i = i + 1;
    }
    assert(rule_names(rules).take(config.categories@.len() as int) =~= rule_names(rules));
    names
}

/// `path` lies at or under `<root>/<name>` for a generated `name`.
pub open spec fn is_generated_path(path: Seq<char>, root: Seq<char>, c: ConfigView) -> bool {
    exists|x: Seq<char>| is_generated_name(c, x) && #[trigger] path_starts_with(path, join_path(root, x))
}

/// True if `path` equals `<root>/<name>` or lies under it, for a generated
/// category `name`.
pub fn is_generated_category(path: &str, root: &str, config: &Config) -> (r: bool)
    ensures
        r == is_generated_path(path@, root@, config@),
{
    let names = is_generated_category_set(config);
    let mut i: usize = 0;
    while i < names.len()
        invariant
            i <= names@.len(),
            forall|x: Seq<char>| #[trigger] strs_of(names@).contains(x) <==> is_generated_name(config@, x),
            forall|j: int| 0 <= j < i ==> !path_starts_with(path@, join_path(root@, #[trigger] names@[j]@)),
        decreases names.len() - i,
    {
        let candidate = join_path_exec(root, names[i].as_str());
        if path_starts_with_exec(path, candidate.as_str()) {
            assert(strs_of(names@)[i as int] == names@[i as int]@);
            assert(strs_of(names@).contains(names@[i as int]@));
            return true;
        }
        i = i + 1;
    }
    proof {
        assert forall|x: Seq<char>| is_generated_name(config@, x) implies !#[trigger] path_starts_with(path@, join_path(root@, x)) by {
            assert(strs_of(names@).contains(x));
            let j = choose|j: int| 0 <= j < strs_of(names@).len() && strs_of(names@)[j] == x;
            assert(names@[j]@ == x);
        }
    }
    false
}

// ---------------------------------------------------------------------------
// Name safety and rule validation
// ---------------------------------------------------------------------------

/// The path syntax that category names are checked against.
#[derive(Debug, Clone, Copy, PartialEq, Eq, Structural)]
pub enum Platform {
    /// `/` separates components; absolute paths start with `/`.
    Posix,
    /// `/` and `\` separate components; drive letters and leading
    /// separators make a path absolute.
    Windows,
}

/// The primary separator of path components on this machine
/// (`std::path::MAIN_SEPARATOR`): `\\` on Windows and `/` elsewhere.
#[verifier::external_body]
fn main_separator() -> (c: char)
    ensures
        c == '/' || c == '\\',
{
    std::path::MAIN_SEPARATOR
}

/// The platform whose primary path separator is `sep`: Windows for `\\`,
/// POSIX otherwise.
pub open spec fn platform_of_separator(sep: char) -> Platform {
    if sep == '\\' {
        Platform::Windows
    } else {
        Platform::Posix
    }
}

/// The platform whose primary path separator is `sep`.
pub fn platform_for_separator(sep: char) -> (p: Platform)
    ensures
        p == platform_of_separator(sep),
{
    if sep == '\\' {
        Platform::Windows
    } else {
        Platform::Posix
    }
}

impl Platform {
    /// The platform this program runs on: `platform_for_separator` applied
    /// to this machine's `std::path::MAIN_SEPARATOR`. Which separator that
    /// is depends on the machine, so no clause names the result; the
    /// decision from the separator is `platform_for_separator`'s contract.
    pub fn host() -> (p: Platform) {
        let sep = main_separator();
        platform_for_separator(sep)
    }
}

/// The separators of path components on `p`.
pub open spec fn separators(p: Platform) -> Seq<char> {
    match p {
        Platform::Posix => seq!['/'],
        Platform::Windows => seq!['/', '\\'],
    }
}

/// Some component of `name`, split at `seps`, is `..`.
pub open spec fn has_parent_segment(name: Seq<char>, seps: Seq<char>) -> bool {
    split_by(name, seps).contains(seq!['.', '.'])
}

/// `C:\\...` or `C:/...`: a drive letter followed by a root.
pub open spec fn has_drive_root(name: Seq<char>) -> bool {
    &&& name.len() >= 3
    &&& (('a' <= name[0] && name[0] <= 'z') || ('A' <= name[0] && name[0] <= 'Z'))
    &&& name[1] == ':'
    &&& (name[2] == '\\' || name[2] == '/')
}

/// A category name is unsafe when it resolves outside the destination
/// folder: an absolute path, or a `..` segment. On Windows a leading `\\`,
/// a drive root and `\\` as separator count too.
pub open spec fn is_unsafe_name(name: Seq<char>, p: Platform) -> bool {
    match p {
        Platform::Posix => has_root(name) || has_parent_segment(name, separators(p)),
        Platform::Windows => has_root(name) || (name.len() > 0 && name[0] == '\\')
            || has_drive_root(name) || has_parent_segment(name, separators(p)),
    }
}

/// Whether `name` resolves outside the destination folder on `platform`.
pub fn is_unsafe_category_name(name: &str, platform: Platform) -> (r: bool)
    ensures
        r == is_unsafe_name(name@, platform),
{
    let n = name.unicode_len();
    if n > 0 && name.get_char(0) == '/' {
        return true;
    }
    let mut seps: Vec<char> = Vec::new();
    seps.push('/');
    match platform {
        Platform::Windows => {
            if n > 0 && name.get_char(0) == '\\' {
                return true;
            }
            if n >= 3 {
                let c0 = name.get_char(0);
                let c1 = name.get_char(1);
                let c2 = name.get_char(2);
                if (('a' <= c0 && c0 <= 'z') || ('A' <= c0 && c0 <= 'Z')) && c1 == ':' && (c2
                    == '\\' || c2 == '/') {
                    return true;
                }
            }
            seps.push('\\');
        },
        Platform::Posix => {},
    }
    assert(seps@ =~= separators(platform));
    let pieces = split_str(name, &seps);
    let ghost pv = strs_of(pieces@);
    assert(pv == split_by(name@, separators(platform)));
    proof {
        reveal_strlit("..");
        assert(".."@ =~= seq!['.', '.']);
    }
    let mut i: usize = 0;
    while i < pieces.len()
        invariant
            i <= pieces@.len(),
            pv == strs_of(pieces@),
            pv == split_by(name@, separators(platform)),
            forall|j: int| 0 <= j < i ==> #[trigger] pv[j] != seq!['.', '.'],
            ".."@ == seq!['.', '.'],
        decreases pieces.len() - i,
    {
        assert(pv[i as int] == pieces@[i as int]@);
        if str_eq(pieces[i].as_str(), "..") {
            assert(pv[i as int] == seq!['.', '.']);
            return true;
        }
        i = i + 1;
    }
    proof {
        assert forall|j: int| 0 <= j < pv.len() implies pv[j] != seq!['.', '.'] by {}
        if pv.contains(seq!['.', '.']) {
            let j = choose|j: int| 0 <= j < pv.len() && pv[j] == seq!['.', '.'];
        }
    }
    false
}

/// The first problem of one rule, given the rules declared before it:
/// a blank name, an unsafe name, no extensions, a blank extension, or a
/// name declared before.
pub open spec fn rule_error(rule: RuleView, earlier: Seq<RuleView>, p: Platform) -> Option<ConfigErrorView> {
    if is_blank(rule.name) {
        Some(ConfigErrorView::EmptyCategoryName)
    } else if is_unsafe_name(rule.name, p) {
        Some(ConfigErrorView::UnsafeCategoryName(rule.name))
    } else if rule.extensions.len() == 0 {
        Some(ConfigErrorView::EmptyCategoryExtensions(rule.name))
    } else if exists|i: int| 0 <= i < rule.extensions.len() && is_blank(#[trigger] rule.extensions[i]) {
        Some(ConfigErrorView::EmptyExtensionInCategory(rule.name))
    } else if exists|j: int| 0 <= j < earlier.len() && #[trigger] earlier[j].name == rule.name {
        Some(ConfigErrorView::DuplicateCategoryName(rule.name))
    } else {
        None
    }
}

/// The problem of the first rule that has one, in declaration order.
pub open spec fn categories_error(rules: Seq<RuleView>, p: Platform) -> Option<ConfigErrorView>
    decreases rules.len(),
{
    if rules.len() == 0 {
        None
    } else {
        match categories_error(rules.drop_last(), p) {
            Some(e) => Some(e),
            None => rule_error(rules.last(), rules.drop_last(), p),
        }
    }
}

/// Once a prefix of the rules has a problem, that problem is the answer.
pub proof fn lemma_categories_error_prefix(rules: Seq<RuleView>, k: int, p: Platform)
    requires
        0 <= k <= rules.len(),
        categories_error(rules.take(k), p) is Some,
    ensures
        categories_error(rules, p) == categories_error(rules.take(k), p),
    decreases rules.len(),
{
    if k == rules.len() {
        assert(rules.take(k) =~= rules);
    } else {
        assert(rules.drop_last().take(k) =~= rules.take(k));
        lemma_categories_error_prefix(rules.drop_last(), k, p);
    }
}

/// The views of a list of rules.
pub open spec fn rules_view(rules: Seq<CategoryRule>) -> Seq<RuleView> {
    rules.map_values(|r: CategoryRule| r@)
}

/// Checks every `[[categories]]` rule, stopping at the first problem.
#[verifier::loop_isolation(false)]
pub fn validate_categories(rules: &[CategoryRule], platform: Platform) -> (r: Result<(), ConfigError>)
    ensures
        r is Ok <==> categories_error(rules_view(rules@), platform) is None,
        r matches Err(e) ==> categories_error(rules_view(rules@), platform) == Some(e@),
{
    let ghost rv = rules_view(rules@);
    let mut seen: Vec<String> = Vec::new();
    let mut i: usize = 0;
    assert(rv.take(0) =~= Seq::<RuleView>::empty());
    while i < rules.len()
        invariant
            i <= rules@.len(),
            rv == rules_view(rules@),
            categories_error(rv.take(i as int), platform) is None,
            strs_of(seen@) == rule_names(rv.take(i as int)),
        decreases rules.len() - i,
    {
        let rule = &rules[i];
        let ghost earlier = rv.take(i as int);
        assert(rv.take(i + 1).drop_last() =~= earlier);
        assert(rv.take(i + 1).last() == rule@);
        assert(rule@ == rv[i as int]);
        if is_blank_str(rule.name.as_str()) {
            proof {
                lemma_categories_error_prefix(rv, i + 1, platform);
            }
            return Err(ConfigError::EmptyCategoryName);
        }
        if is_unsafe_category_name(rule.name.as_str(), platform) {
            proof {
                lemma_categories_error_prefix(rv, i + 1, platform);
            }
            return Err(ConfigError::UnsafeCategoryName(rule.name.clone()));
        }
        if rule.extensions.len() == 0 {
            proof {
                lemma_categories_error_prefix(rv, i + 1, platform);
            }
            return Err(ConfigError::EmptyCategoryExtensions(rule.name.clone()));
        }
        let mut j: usize = 0;
        let mut blank_extension = false;
        while j < rule.extensions.len()
            invariant
                j <= rule.extensions@.len(),
                forall|k: int| 0 <= k < j ==> !is_blank(#[trigger] rule@.extensions[k]),
                blank_extension ==> exists|k: int| 0 <= k < rule@.extensions.len() && is_blank(#[trigger] rule@.extensions[k]),
            decreases rule.extensions.len() - j,
        {
            assert(rule@.extensions[j as int] == rule.extensions@[j as int]@);
            if is_blank_str(rule.extensions[j].as_str()) {
                blank_extension = true;
                break;
            }
            j = j + 1;
        }
        if blank_extension {
            proof {
                lemma_categories_error_prefix(rv, i + 1, platform);
            }
            return Err(ConfigError::EmptyExtensionInCategory(rule.name.clone()));
        }
        let mut k: usize = 0;
        while k < seen.len()
            invariant
                k <= seen@.len(),
                strs_of(seen@) == rule_names(earlier),
                forall|m: int| 0 <= m < k ==> #[trigger] earlier[m].name != rule@.name,
            decreases seen.len() - k,
        {
            assert(strs_of(seen@).len() == seen@.len());
            assert(rule_names(earlier).len() == earlier.len());
            assert(rule_names(earlier)[k as int] == earlier[k as int].name);
            assert(strs_of(seen@)[k as int] == seen@[k as int]@);
            if seen[k] == rule.name {
                assert(strs_of(seen@)[k as int] == earlier[k as int].name);
                proof {
                    lemma_categories_error_prefix(rv, i + 1, platform);
                }
                return Err(ConfigError::DuplicateCategoryName(rule.name.clone()));
            }
            assert(strs_of(seen@)[k as int] == earlier[k as int].name);
            k = k + 1;
        }
        assert(strs_of(seen@).len() == seen@.len());
        assert(rule_names(earlier).len() == earlier.len());
        assert(seen@.len() == earlier.len());
        assert(rule_error(rule@, earlier, platform) is None);
        let ghost before_seen = strs_of(seen@);
        seen.push(rule.name.clone());
        assert(rv.take(i + 1) =~= earlier.push(rule@));
        assert(rule_names(earlier.push(rule@)) =~= rule_names(earlier).push(rule@.name));
        assert(strs_of(seen@) =~= before_seen.push(rule@.name));
        assert(strs_of(seen@) =~= rule_names(rv.take(i + 1)));
        i = i + 1;
    }
    assert(rv.take(rules@.len() as int) =~= rv);
    Ok(())
}


// ---------------------------------------------------------------------------
// Laws
// ---------------------------------------------------------------------------

/// What `insert_all` does: its keys are those of `m` and of `keys`; each of
/// `keys` maps to `value`; every other key keeps its value in `m`.
pub proof fn lemma_insert_all(m: Map<Seq<char>, Seq<char>>, keys: Seq<Seq<char>>, value: Seq<char>)
    ensures
        forall|k: Seq<char>| #[trigger] insert_all(m, keys, value).dom().contains(k) <==> (m.dom().contains(k) || keys.contains(k)),
        forall|k: Seq<char>| keys.contains(k) ==> #[trigger] insert_all(m, keys, value)[k] == value,
        forall|k: Seq<char>| !keys.contains(k) && m.dom().contains(k) ==> #[trigger] insert_all(m, keys, value)[k] == m[k],
    decreases keys.len(),
{
    if keys.len() > 0 {
        let p = keys.drop_last();
        lemma_insert_all(m, p, value);
        assert forall|k: Seq<char>| keys.contains(k) <==> (p.contains(k) || k == keys.last()) by {
            if keys.contains(k) {
                let j = choose|j: int| 0 <= j < keys.len() && keys[j] == k;
                if j < p.len() {
                    assert(p[j] == k);
                }
            }
            if p.contains(k) {
                let j = choose|j: int| 0 <= j < p.len() && p[j] == k;
                assert(keys[j] == k);
            }
            if k == keys.last() {
                assert(keys[keys.len() - 1] == k);
            }
        }
        let prev = insert_all(m, p, value);
        assert forall|k: Seq<char>| #[trigger] insert_all(m, keys, value).dom().contains(k) <==> (m.dom().contains(k) || keys.contains(k)) by {
            assert(prev.dom().contains(k) <==> (m.dom().contains(k) || p.contains(k)));
        }
        assert forall|k: Seq<char>| keys.contains(k) implies #[trigger] insert_all(m, keys, value)[k] == value by {
            if k != keys.last() {
                assert(p.contains(k));
                assert(prev[k] == value);
            }
        }
        assert forall|k: Seq<char>| !keys.contains(k) && m.dom().contains(k) implies #[trigger] insert_all(m, keys, value)[k] == m[k] by {
            assert(!p.contains(k));
            assert(prev[k] == m[k]);
        }
    }
}

/// Every value of the built-in groups inserted into an empty map is the
/// name of one of the groups.
proof fn lemma_insert_groups_values(groups: Seq<(Seq<char>, Seq<Seq<char>>)>)
    ensures
        forall|k: Seq<char>| #[trigger] insert_groups(Map::empty(), groups).dom().contains(k) ==> groups.map_values(|g: (Seq<char>, Seq<Seq<char>>)| g.0).contains(insert_groups(Map::empty(), groups)[k]),
    decreases groups.len(),
{
    if groups.len() > 0 {
        let p = groups.drop_last();
        lemma_insert_groups_values(p);
        let prev = insert_groups(Map::empty(), p);
        lemma_insert_all(prev, groups.last().1, groups.last().0);
        let names = groups.map_values(|g: (Seq<char>, Seq<Seq<char>>)| g.0);
        let pnames = p.map_values(|g: (Seq<char>, Seq<Seq<char>>)| g.0);
        assert forall|k: Seq<char>| #[trigger] insert_groups(Map::empty(), groups).dom().contains(k) implies names.contains(insert_groups(Map::empty(), groups)[k]) by {
            let v = insert_groups(Map::empty(), groups)[k];
            if groups.last().1.contains(k) {
                assert(names[groups.len() - 1] == v);
            } else {
                assert(pnames.contains(v));
                let j = choose|j: int| 0 <= j < pnames.len() && pnames[j] == v;
                assert(names[j] == v);
            }
        }
    }
}

/// Default category set: every built-in extension maps to one of the six
/// built-in category names, never to the default category and never to an
/// empty name.
pub proof fn law_builtin_categories_are_named()
    ensures
        forall|k: Seq<char>| #[trigger] builtin_categories().dom().contains(k) ==> {
            &&& builtin_names().contains(builtin_categories()[k])
            &&& builtin_categories()[k] != DEFAULT_CATEGORY@
            &&& builtin_categories()[k].len() > 0
        },
{
    lemma_insert_groups_values(builtin_groups());
    reveal_strlit("Other");
    reveal_strlit("Image");
    reveal_strlit("Video");
    reveal_strlit("Audio");
    reveal_strlit("Text");
    reveal_strlit("Executable");
    reveal_strlit("Compressed");
    let names = builtin_names();
    assert forall|x: Seq<char>| names.contains(x) implies x != DEFAULT_CATEGORY@ && x.len() > 0 by {
        let j = choose|j: int| 0 <= j < names.len() && names[j] == x;
        assert(names[0] == "Image"@ && names[1] == "Video"@ && names[2] == "Audio"@);
        assert(names[3] == "Text"@ && names[4] == "Executable"@ && names[5] == "Compressed"@);
        assert("Other"@[0] == 'O');
    }
}

/// The built-in table, entry by entry: each of these 54 lower-case
/// extensions maps to its category, and no other extension is in it.
pub proof fn law_builtin_table_is_the_documented_one()
    ensures
        builtin_categories() == map![
            "jpg"@ => "Image"@,
            "jpeg"@ => "Image"@,
            "png"@ => "Image"@,
            "gif"@ => "Image"@,
            "webp"@ => "Image"@,
            "heic"@ => "Image"@,
            "svg"@ => "Image"@,
            "tiff"@ => "Image"@,
            "tif"@ => "Image"@,
            "mp4"@ => "Video"@,
            "mov"@ => "Video"@,
            "mkv"@ => "Video"@,
            "avi"@ => "Video"@,
            "webm"@ => "Video"@,
            "m4v"@ => "Video"@,
            "mp3"@ => "Audio"@,
            "m4a"@ => "Audio"@,
            "wav"@ => "Audio"@,
            "flac"@ => "Audio"@,
            "ogg"@ => "Audio"@,
            "aac"@ => "Audio"@,
            "txt"@ => "Text"@,
            "md"@ => "Text"@,
            "rtf"@ => "Text"@,
            "doc"@ => "Text"@,
            "docx"@ => "Text"@,
            "pages"@ => "Text"@,
            "pdf"@ => "Text"@,
            "xlsx"@ => "Text"@,
            "xls"@ => "Text"@,
            "pptx"@ => "Text"@,
            "ppt"@ => "Text"@,
            "key"@ => "Text"@,
            "numbers"@ => "Text"@,
            "csv"@ => "Text"@,
            "epub"@ => "Text"@,
            "odt"@ => "Text"@,
            "ods"@ => "Text"@,
            "odp"@ => "Text"@,
            "log"@ => "Text"@,
            "tex"@ => "Text"@,
            "dmg"@ => "Executable"@,
            "pkg"@ => "Executable"@,
            "msi"@ => "Executable"@,
            "exe"@ => "Executable"@,
            "deb"@ => "Executable"@,
            "rpm"@ => "Executable"@,
            "zip"@ => "Compressed"@,
            "rar"@ => "Compressed"@,
            "7z"@ => "Compressed"@,
            "tar"@ => "Compressed"@,
            "gz"@ => "Compressed"@,
            "bz2"@ => "Compressed"@,
            "xz"@ => "Compressed"@,
        ],
{
    assert forall|m: Map<Seq<char>, Seq<char>>, keys: Seq<Seq<char>>, k: Seq<char>, v: Seq<char>|
        #[trigger] insert_all(m, keys.push(k), v) == insert_all(m, keys, v).insert(k, v) by {
        assert(keys.push(k).drop_last() =~= keys);
    }
    assert forall|m: Map<Seq<char>, Seq<char>>, v: Seq<char>|
        #[trigger] insert_all(m, Seq::<Seq<char>>::empty(), v) == m by {}
    assert forall|m: Map<Seq<char>, Seq<char>>, gs: Seq<(Seq<char>, Seq<Seq<char>>)>, g: (Seq<char>, Seq<Seq<char>>)|
        #[trigger] insert_groups(m, gs.push(g)) == insert_all(insert_groups(m, gs), g.1, g.0) by {
        assert(gs.push(g).drop_last() =~= gs);
    }
    assert forall|m: Map<Seq<char>, Seq<char>>|
        #[trigger] insert_groups(m, Seq::<(Seq<char>, Seq<Seq<char>>)>::empty()) == m by {}
    let g = builtin_groups();
    assert(g =~= Seq::<(Seq<char>, Seq<Seq<char>>)>::empty().push(g[0]).push(g[1]).push(g[2]).push(g[3]).push(g[4]).push(g[5]));
    let m_image = insert_all(Map::<Seq<char>, Seq<char>>::empty(), image_extensions(), "Image"@);
    assert(image_extensions() =~= Seq::<Seq<char>>::empty().push("jpg"@).push("jpeg"@).push("png"@).push("gif"@).push("webp"@).push("heic"@).push("svg"@).push("tiff"@).push("tif"@));
    assert(m_image == Map::<Seq<char>, Seq<char>>::empty().insert("jpg"@, "Image"@).insert("jpeg"@, "Image"@).insert("png"@, "Image"@).insert("gif"@, "Image"@).insert("webp"@, "Image"@).insert("heic"@, "Image"@).insert("svg"@, "Image"@).insert("tiff"@, "Image"@).insert("tif"@, "Image"@));
    let m_video = insert_all(m_image, video_extensions(), "Video"@);
    assert(video_extensions() =~= Seq::<Seq<char>>::empty().push("mp4"@).push("mov"@).push("mkv"@).push("avi"@).push("webm"@).push("m4v"@));
    assert(m_video == m_image.insert("mp4"@, "Video"@).insert("mov"@, "Video"@).insert("mkv"@, "Video"@).insert("avi"@, "Video"@).insert("webm"@, "Video"@).insert("m4v"@, "Video"@));
    let m_audio = insert_all(m_video, audio_extensions(), "Audio"@);
    assert(audio_extensions() =~= Seq::<Seq<char>>::empty().push("mp3"@).push("m4a"@).push("wav"@).push("flac"@).push("ogg"@).push("aac"@));
    assert(m_audio == m_video.insert("mp3"@, "Audio"@).insert("m4a"@, "Audio"@).insert("wav"@, "Audio"@).insert("flac"@, "Audio"@).insert("ogg"@, "Audio"@).insert("aac"@, "Audio"@));
    let m_text = insert_all(m_audio, text_extensions(), "Text"@);
    assert(text_extensions() =~= Seq::<Seq<char>>::empty().push("txt"@).push("md"@).push("rtf"@).push("doc"@).push("docx"@).push("pages"@).push("pdf"@).push("xlsx"@).push("xls"@).push("pptx"@).push("ppt"@).push("key"@).push("numbers"@).push("csv"@).push("epub"@).push("odt"@).push("ods"@).push("odp"@).push("log"@).push("tex"@));
    assert(m_text == m_audio.insert("txt"@, "Text"@).insert("md"@, "Text"@).insert("rtf"@, "Text"@).insert("doc"@, "Text"@).insert("docx"@, "Text"@).insert("pages"@, "Text"@).insert("pdf"@, "Text"@).insert("xlsx"@, "Text"@).insert("xls"@, "Text"@).insert("pptx"@, "Text"@).insert("ppt"@, "Text"@).insert("key"@, "Text"@).insert("numbers"@, "Text"@).insert("csv"@, "Text"@).insert("epub"@, "Text"@).insert("odt"@, "Text"@).insert("ods"@, "Text"@).insert("odp"@, "Text"@).insert("log"@, "Text"@).insert("tex"@, "Text"@));
    let m_executable = insert_all(m_text, executable_extensions(), "Executable"@);
    assert(executable_extensions() =~= Seq::<Seq<char>>::empty().push("dmg"@).push("pkg"@).push("msi"@).push("exe"@).push("deb"@).push("rpm"@));
    assert(m_executable == m_text.insert("dmg"@, "Executable"@).insert("pkg"@, "Executable"@).insert("msi"@, "Executable"@).insert("exe"@, "Executable"@).insert("deb"@, "Executable"@).insert("rpm"@, "Executable"@));
    let m_compressed = insert_all(m_executable, compressed_extensions(), "Compressed"@);
    assert(compressed_extensions() =~= Seq::<Seq<char>>::empty().push("zip"@).push("rar"@).push("7z"@).push("tar"@).push("gz"@).push("bz2"@).push("xz"@));
    assert(m_compressed == m_executable.insert("zip"@, "Compressed"@).insert("rar"@, "Compressed"@).insert("7z"@, "Compressed"@).insert("tar"@, "Compressed"@).insert("gz"@, "Compressed"@).insert("bz2"@, "Compressed"@).insert("xz"@, "Compressed"@));
    assert(builtin_categories() == m_compressed);
}

/// A supplementing rule (no `replace`) adds its extensions under its name
/// and leaves every other mapping as it was.
pub proof fn law_supplementing_rule_keeps_other_mappings(m: Map<Seq<char>, Seq<char>>, rule: RuleView)
    requires
        !rule.replace,
    ensures
        forall|k: Seq<char>| lowered(rule.extensions).contains(k) ==> #[trigger] apply_rule(m, rule).dom().contains(k) && apply_rule(m, rule)[k] == rule.name,
        forall|k: Seq<char>| !lowered(rule.extensions).contains(k) ==> (#[trigger] apply_rule(m, rule).dom().contains(k) <==> m.dom().contains(k)),
        forall|k: Seq<char>| !lowered(rule.extensions).contains(k) && m.dom().contains(k) ==> #[trigger] apply_rule(m, rule)[k] == m[k],
{
    lemma_insert_all(m, lowered(rule.extensions), rule.name);
}

/// A replacing rule discards every mapping to its name and substitutes its
/// own extensions: afterwards a key maps to the rule's name exactly when it
/// is one of the rule's extensions, and other keys keep their mappings.
pub proof fn law_replacing_rule_substitutes(m: Map<Seq<char>, Seq<char>>, rule: RuleView)
    requires
        rule.replace,
    ensures
        forall|k: Seq<char>| #[trigger] apply_rule(m, rule).dom().contains(k) ==> (apply_rule(m, rule)[k] == rule.name <==> lowered(rule.extensions).contains(k)),
        forall|k: Seq<char>| lowered(rule.extensions).contains(k) ==> #[trigger] apply_rule(m, rule).dom().contains(k),
        forall|k: Seq<char>| !lowered(rule.extensions).contains(k) ==> (#[trigger] apply_rule(m, rule).dom().contains(k) <==> (m.dom().contains(k) && m[k] != rule.name)),
        forall|k: Seq<char>| !lowered(rule.extensions).contains(k) && m.dom().contains(k) && m[k] != rule.name ==> #[trigger] apply_rule(m, rule)[k] == m[k],
{
    lemma_insert_all(without_value(m, rule.name), lowered(rule.extensions), rule.name);
}

/// Extension override, last write: the last `[extensions]` entry whose key
/// folds to `k` decides the category of `k`, over built-ins and rules.
pub proof fn law_last_override_wins(m: Map<Seq<char>, Seq<char>>, overrides: Seq<(Seq<char>, Seq<char>)>, i: int)
    requires
        0 <= i < overrides.len(),
        forall|j: int| i < j < overrides.len() ==> ascii_lower(#[trigger] overrides[j].0) != ascii_lower(overrides[i].0),
    ensures
        apply_overrides(m, overrides).dom().contains(ascii_lower(overrides[i].0)),
        apply_overrides(m, overrides)[ascii_lower(overrides[i].0)] == overrides[i].1,
    decreases overrides.len(),
{
    if i < overrides.len() - 1 {
        let p = overrides.drop_last();
        assert forall|j: int| i < j < p.len() implies ascii_lower(#[trigger] p[j].0) != ascii_lower(p[i].0) by {
            assert(p[j] == overrides[j] && p[i] == overrides[i]);
        }
        law_last_override_wins(m, p, i);
        assert(p[i] == overrides[i]);
        assert(ascii_lower(overrides[overrides.len() - 1].0) != ascii_lower(overrides[i].0));
    }
}

/// The categories a mapping can hold after composition: a built-in name,
/// the name of a rule, or the category of an `[extensions]` entry.
pub open spec fn is_configured_category(c: ConfigView, x: Seq<char>) -> bool {
    ||| builtin_names().contains(x)
    ||| rule_names(c.categories).contains(x)
    ||| c.extensions.map_values(|e: (Seq<char>, Seq<char>)| e.1).contains(x)
}

proof fn lemma_apply_rules_values(rules: Seq<RuleView>)
    ensures
        forall|k: Seq<char>| #[trigger] apply_rules(builtin_categories(), rules).dom().contains(k) ==> (builtin_names().contains(apply_rules(builtin_categories(), rules)[k]) || rule_names(rules).contains(apply_rules(builtin_categories(), rules)[k])),
    decreases rules.len(),
{
    if rules.len() == 0 {
        law_builtin_categories_are_named();
    } else {
        let p = rules.drop_last();
        let r = rules.last();
        lemma_apply_rules_values(p);
        let prev = apply_rules(builtin_categories(), p);
        let base = if r.replace {
            without_value(prev, r.name)
        } else {
            prev
        };
        lemma_insert_all(base, lowered(r.extensions), r.name);
        assert forall|k: Seq<char>| #[trigger] apply_rules(builtin_categories(), rules).dom().contains(k) implies (builtin_names().contains(apply_rules(builtin_categories(), rules)[k]) || rule_names(rules).contains(apply_rules(builtin_categories(), rules)[k])) by {
            let v = apply_rules(builtin_categories(), rules)[k];
            if lowered(r.extensions).contains(k) {
                assert(rule_names(rules)[rules.len() - 1] == v);
            } else {
                assert(base.dom().contains(k) && v == base[k]);
                assert(prev.dom().contains(k) && v == prev[k]);
                if rule_names(p).contains(v) {
                    let j = choose|j: int| 0 <= j < rule_names(p).len() && rule_names(p)[j] == v;
                    assert(rule_names(rules)[j] == v);
                }
            }
        }
    }
}

proof fn lemma_apply_overrides_values(m: Map<Seq<char>, Seq<char>>, overrides: Seq<(Seq<char>, Seq<char>)>)
    ensures
        forall|k: Seq<char>| #[trigger] apply_overrides(m, overrides).dom().contains(k) ==> ((m.dom().contains(k) && apply_overrides(m, overrides)[k] == m[k]) || overrides.map_values(|e: (Seq<char>, Seq<char>)| e.1).contains(apply_overrides(m, overrides)[k])),
    decreases overrides.len(),
{
    if overrides.len() > 0 {
        let p = overrides.drop_last();
        lemma_apply_overrides_values(m, p);
        let vals = overrides.map_values(|e: (Seq<char>, Seq<char>)| e.1);
        let pvals = p.map_values(|e: (Seq<char>, Seq<char>)| e.1);
        assert forall|k: Seq<char>| #[trigger] apply_overrides(m, overrides).dom().contains(k) implies ((m.dom().contains(k) && apply_overrides(m, overrides)[k] == m[k]) || vals.contains(apply_overrides(m, overrides)[k])) by {
            let v = apply_overrides(m, overrides)[k];
            if k == ascii_lower(overrides.last().0) {
                assert(vals[overrides.len() - 1] == v);
            } else {
                assert(apply_overrides(m, p).dom().contains(k));
                assert(v == apply_overrides(m, p)[k]);
            }
            if k != ascii_lower(overrides.last().0) && pvals.contains(v) {
                let j = choose|j: int| 0 <= j < pvals.len() && pvals[j] == v;
                assert(vals[j] == v);
            }
        }
    }
}

/// Every file lands in exactly one category, and that category is the
/// default one or a configured one: a built-in name, a rule's name, or an
/// `[extensions]` category.
pub proof fn law_classification_lands_in_configured_category(c: ConfigView, name: Option<Seq<char>>)
    ensures
        category_of_name(name, composed_categories(c)) == DEFAULT_CATEGORY@ || is_configured_category(c, category_of_name(name, composed_categories(c))),
{
    let after_rules = apply_rules(builtin_categories(), c.categories);
    lemma_apply_rules_values(c.categories);
    lemma_apply_overrides_values(after_rules, c.extensions);
}

proof fn lemma_lower_char_dot(c: char)
    ensures
        (ascii_lower_char(c) == '.') <==> (c == '.'),
{
}

/// Folding case does not move the dots of a name.
proof fn lemma_last_dot_case_blind(a: Seq<char>, b: Seq<char>)
    requires
        ascii_lower(a) == ascii_lower(b),
    ensures
        last_index_of(a, '.') == last_index_of(b, '.'),
    decreases a.len(),
{
    assert(a.len() == ascii_lower(a).len());
    assert(b.len() == ascii_lower(b).len());
    if a.len() > 0 {
        assert(ascii_lower(a)[a.len() - 1] == ascii_lower_char(a.last()));
        assert(ascii_lower(b)[b.len() - 1] == ascii_lower_char(b.last()));
        lemma_lower_char_dot(a.last());
        lemma_lower_char_dot(b.last());
        assert(ascii_lower(a.drop_last()) =~= ascii_lower(a).drop_last());
        assert(ascii_lower(b.drop_last()) =~= ascii_lower(b).drop_last());
        lemma_last_dot_case_blind(a.drop_last(), b.drop_last());
    }
}

/// Classification is case-insensitive: file names that differ only in
/// ASCII case land in the same category.
pub proof fn law_classification_ignores_ascii_case(a: Seq<char>, b: Seq<char>, m: Map<Seq<char>, Seq<char>>)
    requires
        ascii_lower(a) == ascii_lower(b),
    ensures
        category_of_name(Some(a), m) == category_of_name(Some(b), m),
{
    lemma_last_dot_case_blind(a, b);
    let i = last_index_of(a, '.');
    if i >= 0 {
        crate::text::lemma_last_index_of_bounds(a, '.');
        assert(a.len() == b.len()) by {
            assert(a.len() == ascii_lower(a).len());
            assert(b.len() == ascii_lower(b).len());
        }
        let ea = a.subrange(i + 1, a.len() as int);
        let eb = b.subrange(i + 1, b.len() as int);
        assert(ascii_lower(ea) =~= ascii_lower(a).subrange(i + 1, a.len() as int));
        assert(ascii_lower(eb) =~= ascii_lower(b).subrange(i + 1, b.len() as int));
    }
}

/// The seven flat names are always generated, whatever the configuration.
pub proof fn law_flat_names_are_generated(c: ConfigView)
    ensures
        is_generated_name(c, "Text"@),
        is_generated_name(c, "Other"@),
        is_generated_name(c, "Executable"@),
        is_generated_name(c, "Compressed"@),
        is_generated_name(c, "Audio"@),
        is_generated_name(c, "Video"@),
        is_generated_name(c, "Image"@),
        forall|i: int| 0 <= i < c.categories.len() ==> is_generated_name(c, #[trigger] c.categories[i].name),
{
    let b = builtin_names();
    assert(b[0] == "Image"@ && b[1] == "Video"@ && b[2] == "Audio"@);
    assert(b[3] == "Text"@ && b[4] == "Executable"@ && b[5] == "Compressed"@);
    assert forall|i: int| 0 <= i < c.categories.len() implies is_generated_name(c, #[trigger] c.categories[i].name) by {
        assert(rule_names(c.categories)[i] == c.categories[i].name);
    }
}


/// Unknown extensions and files without an extension both land in the
/// default category.
pub proof fn law_unknown_or_missing_extension_is_other(name: Seq<char>, m: Map<Seq<char>, Seq<char>>)
    ensures
        extension_of(name) is None ==> category_of_name(Some(name), m) == DEFAULT_CATEGORY@,
        (extension_of(name) matches Some(e) && (e.len() == 0 || !m.dom().contains(ascii_lower(e))))
            ==> category_of_name(Some(name), m) == DEFAULT_CATEGORY@,
        category_of_name(None, m) == DEFAULT_CATEGORY@,
{
}

/// A file is classified by the text after its last dot, in ASCII lower
/// case: `base.ext` lands in the category of `ext` whatever `base` holds
/// (dots included), and in `Other` when `ext` is unknown; a name without a
/// dot lands in `Other`.
pub proof fn law_category_is_that_of_the_last_extension(
    base: Seq<char>,
    ext: Seq<char>,
    m: Map<Seq<char>, Seq<char>>,
)
    requires
        !ext.contains('.'),
    ensures
        ext.len() > 0 && m.dom().contains(ascii_lower(ext)) ==> category_of_name(
            Some(base + seq!['.'] + ext),
            m,
        ) == m[ascii_lower(ext)],
        ext.len() > 0 && !m.dom().contains(ascii_lower(ext)) ==> category_of_name(
            Some(base + seq!['.'] + ext),
            m,
        ) == "Other"@,
        ext.len() == 0 ==> category_of_name(Some(base + seq!['.'] + ext), m) == "Other"@,
        category_of_name(Some(ext), m) == "Other"@,
        DEFAULT_CATEGORY@ == "Other"@,
{
    lemma_last_index_of_split(base, '.', ext);
    lemma_last_index_of_absent(ext, '.');
    let n = base + seq!['.'] + ext;
    assert(n.subrange(base.len() + 1 as int, n.len() as int) =~= ext);
}

/// `[extensions]` entries leave every key they do not name untouched.
proof fn lemma_overrides_keep_other_keys(m: Map<Seq<char>, Seq<char>>, overrides: Seq<(Seq<char>, Seq<char>)>, k: Seq<char>)
    requires
        forall|j: int| 0 <= j < overrides.len() ==> ascii_lower(#[trigger] overrides[j].0) != k,
    ensures
        apply_overrides(m, overrides).dom().contains(k) == m.dom().contains(k),
        apply_overrides(m, overrides)[k] == m[k],
    decreases overrides.len(),
{
    if overrides.len() > 0 {
        let p = overrides.drop_last();
        assert forall|j: int| 0 <= j < p.len() implies ascii_lower(#[trigger] p[j].0) != k by {
            assert(p[j] == overrides[j]);
        }
        lemma_overrides_keep_other_keys(m, p, k);
        assert(ascii_lower(overrides[overrides.len() - 1].0) != k);
    }
}

/// The order of resolution: an `[extensions]` entry beats every rule and
/// the built-in table (the last entry for a key wins); a key that no entry
/// names takes the category of the last `[[categories]]` rule that lists it
/// (in any case), over the built-in table; and a key that neither names
/// keeps its built-in category.
pub proof fn law_resolution_order(c: ConfigView, i: int, k: Seq<char>)
    ensures
        0 <= i < c.extensions.len() && (forall|j: int| i < j < c.extensions.len() ==> ascii_lower(#[trigger] c.extensions[j].0)
            != ascii_lower(c.extensions[i].0)) ==> composed_categories(c).dom().contains(ascii_lower(c.extensions[i].0))
            && composed_categories(c)[ascii_lower(c.extensions[i].0)] == c.extensions[i].1,
        c.categories.len() > 0 && lowered(c.categories.last().extensions).contains(k) && (forall|j: int|
            0 <= j < c.extensions.len() ==> ascii_lower(#[trigger] c.extensions[j].0) != k)
            ==> composed_categories(c).dom().contains(k) && composed_categories(c)[k] == c.categories.last().name,
        c.categories.len() == 0 && (forall|j: int| 0 <= j < c.extensions.len() ==> ascii_lower(#[trigger] c.extensions[j].0) != k)
            ==> composed_categories(c).dom().contains(k) == builtin_categories().dom().contains(k)
            && composed_categories(c)[k] == builtin_categories()[k],
{
    let r = apply_rules(builtin_categories(), c.categories);
    if 0 <= i < c.extensions.len() && (forall|j: int| i < j < c.extensions.len() ==> ascii_lower(#[trigger] c.extensions[j].0)
        != ascii_lower(c.extensions[i].0)) {
        law_last_override_wins(r, c.extensions, i);
    }
    if forall|j: int| 0 <= j < c.extensions.len() ==> ascii_lower(#[trigger] c.extensions[j].0) != k {
        lemma_overrides_keep_other_keys(r, c.extensions, k);
        if c.categories.len() > 0 {
            let last = c.categories.last();
            let before = apply_rules(builtin_categories(), c.categories.drop_last());
            let base = if last.replace {
                without_value(before, last.name)
            } else {
                before
            };
            lemma_insert_all(base, lowered(last.extensions), last.name);
        }
    }
}

/// Which category names escape the destination folder: one that starts
/// with `/` (or, on Windows, with `\` or a drive root such as `C:\`), and
/// one with a `..` segment (`..`, `../x`, `x/..`, and with `\` on Windows);
/// a non-empty name of ASCII letters, digits and spaces never does.
pub proof fn law_unsafe_category_names(a: Seq<char>, plain: Seq<char>, p: Platform, drive: char)
    requires
        plain.len() > 0,
        forall|j: int| 0 <= j < plain.len() ==> ('a' <= #[trigger] plain[j] <= 'z') || ('A' <= plain[j]
            <= 'Z') || ('0' <= plain[j] <= '9') || plain[j] == ' ',
        'A' <= drive <= 'Z',
    ensures
        is_unsafe_name(seq!['/'] + a, p),
        is_unsafe_name(seq!['.', '.'], p),
        is_unsafe_name(seq!['.', '.', '/'] + a, p),
        is_unsafe_name(a + seq!['/', '.', '.'], p),
        is_unsafe_name(seq!['\\'] + a, Platform::Windows),
        is_unsafe_name(seq![drive, ':', '\\'] + a, Platform::Windows),
        is_unsafe_name(a + seq!['\\', '.', '.'], Platform::Windows),
        !is_unsafe_name(plain, p),
{
    let w = separators(Platform::Windows);
    let x = separators(Platform::Posix);
    assert(w[0] == '/' && w[1] == '\\' && w.len() == 2);
    assert(x[0] == '/' && x.len() == 1);
    assert forall|c: char| w.contains(c) <==> (c == '/' || c == '\\') by {
        if c == '/' {
            assert(w[0] == c);
        }
        if c == '\\' {
            assert(w[1] == c);
        }
    }
    assert forall|c: char| x.contains(c) <==> c == '/' by {
        if c == '/' {
            assert(x[0] == c);
        }
    }
    let seps = separators(p);
    let dd = seq!['.', '.'];
    assert(seps.contains('/'));
    assert forall|j: int| 0 <= j < dd.len() implies !seps.contains(#[trigger] dd[j]) by {}
    lemma_split_by_single(dd, seps);
    assert(split_by(dd, seps)[0] == dd);
    // `../a`
    lemma_split_by_concat(dd, '/', a, seps);
    assert((split_by(dd, seps) + split_by(a, seps))[0] == dd);
    assert(dd + seq!['/'] + a =~= seq!['.', '.', '/'] + a);
    // `a/..`
    lemma_split_by_concat(a, '/', dd, seps);
    lemma_split_by_nonempty(a, seps);
    let sa = split_by(a, seps);
    assert((sa + split_by(dd, seps))[sa.len() as int] == dd);
    assert(a + seq!['/'] + dd =~= a + seq!['/', '.', '.']);
    // `a\..` on Windows
    lemma_split_by_single(dd, w);
    lemma_split_by_concat(a, '\\', dd, w);
    lemma_split_by_nonempty(a, w);
    let sw = split_by(a, w);
    assert((sw + split_by(dd, w))[sw.len() as int] == dd);
    assert(a + seq!['\\'] + dd =~= a + seq!['\\', '.', '.']);
    // plain names
    assert forall|j: int| 0 <= j < plain.len() implies !seps.contains(#[trigger] plain[j]) by {}
    lemma_split_by_single(plain, seps);
    assert(plain != dd) by {
        if plain == dd {
            assert(plain[0] == '.');
        }
    }
    assert(!split_by(plain, seps).contains(dd)) by {
        if split_by(plain, seps).contains(dd) {
            let k = choose|k: int| 0 <= k < split_by(plain, seps).len() && split_by(plain, seps)[k] == dd;
        }
    }
    let r = seq!['/'] + a;
    assert(r[0] == '/');
    let r2 = seq!['\\'] + a;
    assert(r2[0] == '\\');
    let r3 = seq![drive, ':', '\\'] + a;
    assert(r3[0] == drive && r3[1] == ':' && r3[2] == '\\');
}

} // verus!
