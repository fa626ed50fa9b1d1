//! The decisions of a run: which entries are scanned, which top-level
//! directories move, how a destination conflict is settled, and the names
//! tried when renaming.

use vstd::prelude::*;

use crate::categories::{is_generated_category, is_generated_name, is_generated_path};
use crate::config::{Config, ConfigView, ConflictPolicy};
use crate::categories::DEFAULT_CATEGORY;
use crate::categories::Platform;
use crate::paths::{
    is_hidden, is_hidden_path, join_native, join_native_exec, path_components, same_path, same_path_exec,
};
use crate::text::{decimal, last_index_of, last_index_of_char, owned, push_decimal, str_eq};

verus! {

/// Whether the scan enters an entry at `depth` below the root.
pub open spec fn visits(depth: nat, path: Seq<char>, is_dir: bool, root: Seq<char>, c: ConfigView) -> bool {
    depth == 0 || (!(c.ignore_hidden && is_hidden_path(path)) && !(is_dir && is_generated_path(path, root, c)))
}

/// The scan enters the root, and below it skips hidden entries (when
/// `ignore_hidden`) and generated category directories.
pub fn should_visit(depth: usize, path: &str, is_dir: bool, root: &str, config: &Config) -> (r: bool)
    ensures
        r == visits(depth as nat, path@, is_dir, root@, config@),
{
    if depth == 0 {
        return true;
    }
    if config.ignore_hidden && is_hidden(path) {
        return false;
    }
    if is_dir && is_generated_category(path, root, config) {
        return false;
    }
    true
}

/// A file found by the scan is classified unless it is hidden and hidden
/// entries are ignored.
pub fn should_process_file(path: &str, config: &Config) -> (r: bool)
    ensures
        r == (!config.ignore_hidden || !is_hidden_path(path@)),
{
    !config.ignore_hidden || !is_hidden(path)
}

/// A depth-1 entry that may move into the default category: a directory
/// that is not a symbolic link, not hidden (when `ignore_hidden`) and not a
/// generated category. Emptiness is checked by the caller afterwards.
pub open spec fn is_top_level_candidate(
    depth: nat,
    is_symlink: bool,
    is_dir: bool,
    path: Seq<char>,
    root: Seq<char>,
    c: ConfigView,
) -> bool {
    &&& depth != 0
    &&& !is_symlink
    &&& is_dir
    &&& !(c.ignore_hidden && is_hidden_path(path))
    &&& !is_generated_path(path, root, c)
}

/// Whether a depth-1 entry is a candidate for moving into the default
/// category.
pub fn top_level_directory_candidate(
    depth: usize,
    is_symlink: bool,
    is_dir: bool,
    path: &str,
    root: &str,
    config: &Config,
) -> (r: bool)
    ensures
        r == is_top_level_candidate(depth as nat, is_symlink, is_dir, path@, root@, config@),
{
    if depth == 0 || is_symlink || !is_dir {
        return false;
    }
    if config.ignore_hidden && is_hidden(path) {
        return false;
    }
    !is_generated_category(path, root, config)
}

/// The folder of a category under a source root: `<root>/<category>`, in
/// the native path text of `platform`.
pub fn category_directory(root: &str, category: &str, platform: Platform) -> (r: String)
    ensures
        r@ == join_native(root@, category@, platform),
{
    join_native_exec(root, category, platform)
}

/// Where a file is moved: `<root>/<category>/<name>`.
pub fn file_destination(root: &str, category: &str, name: &str, platform: Platform) -> (r: String)
    ensures
        r@ == join_native(join_native(root@, category@, platform), name@, platform),
{
    let directory = join_native_exec(root, category, platform);
    join_native_exec(directory.as_str(), name, platform)
}

/// Where a top-level directory is moved: `<root>/Other/<dir_name>`.
pub fn directory_destination(root: &str, dir_name: &str, platform: Platform) -> (r: String)
    ensures
        r@ == join_native(join_native(root@, DEFAULT_CATEGORY@, platform), dir_name@, platform),
{
    let directory = join_native_exec(root, DEFAULT_CATEGORY, platform);
    join_native_exec(directory.as_str(), dir_name, platform)
}

/// The path of the entry is one of the `excluded` paths (compared by
/// components), such as the log file.
pub open spec fn is_excluded(path: Seq<char>, excluded: Seq<Seq<char>>) -> bool {
    exists|i: int| 0 <= i < excluded.len() && same_path(path, #[trigger] excluded[i])
}

/// Whether `path` is one of the paths a run leaves alone.
pub fn is_excluded_path(path: &str, excluded: &[String]) -> (r: bool)
    ensures
        r == is_excluded(path@, excluded@.map_values(|e: String| e@)),
{
    let ghost ev = excluded@.map_values(|e: String| e@);
    let mut i: usize = 0;
    while i < excluded.len()
        invariant
            i <= excluded@.len(),
            ev == excluded@.map_values(|e: String| e@),
            forall|j: int| 0 <= j < i ==> !same_path(path@, #[trigger] ev[j]),
        decreases excluded.len() - i,
    {
        assert(ev[i as int] == excluded@[i as int]@);
        if same_path_exec(path, excluded[i].as_str()) {
            return true;
        }
        i = i + 1;
    }
    false
}

/// Whether a file is too recent to move. `elapsed_seconds` is the whole
/// number of seconds since its last modification (0 when that lies in the
/// future), or `None` when it could not be read.
pub fn is_recent(min_age_seconds: u64, elapsed_seconds: Option<u64>) -> (r: bool)
    ensures
        min_age_seconds == 0 ==> !r,
        min_age_seconds > 0 ==> r == match elapsed_seconds {
            Some(s) => s < min_age_seconds,
            None => true,
        },
{
    if min_age_seconds == 0 {
        return false;
    }
    match elapsed_seconds {
        Some(s) => s < min_age_seconds,
        None => true,
    }
}

/// How a move settles its destination.
#[derive(Debug, Clone, Copy, PartialEq, Eq, Structural)]
pub enum MovePlan {
    /// Move to the requested destination.
    Requested,
    /// Move to the first free name `name (n).ext`.
    UniqueName,
    /// Leave the source: the destination exists and the policy is `Skip`.
    SkipConflict,
    /// Leave the source: the destination is a directory and the policy is
    /// `Overwrite`.
    SkipDirectoryDestination,
}

/// The plan for a move whose requested destination may exist.
pub open spec fn move_plan(exists: bool, is_dir: bool, policy: ConflictPolicy) -> MovePlan {
    if !exists {
        MovePlan::Requested
    } else {
        match policy {
            ConflictPolicy::Skip => MovePlan::SkipConflict,
            ConflictPolicy::Rename => MovePlan::UniqueName,
            ConflictPolicy::Overwrite => if is_dir {
                MovePlan::SkipDirectoryDestination
            } else {
                MovePlan::Requested
            },
        }
    }
}

/// Settles a destination conflict by the conflict policy.
pub fn plan_move(destination_exists: bool, destination_is_dir: bool, policy: ConflictPolicy) -> (r: MovePlan)
    ensures
        r == move_plan(destination_exists, destination_is_dir, policy),
{
    if !destination_exists {
        return MovePlan::Requested;
    }
    match policy {
        ConflictPolicy::Skip => MovePlan::SkipConflict,
        ConflictPolicy::Rename => MovePlan::UniqueName,
        ConflictPolicy::Overwrite => if destination_is_dir {
            MovePlan::SkipDirectoryDestination
        } else {
            MovePlan::Requested
        },
    }
}

/// Whether an existing destination file is removed before the move: only
/// under `Overwrite`.
pub fn replaces_existing(policy: ConflictPolicy, destination_exists: bool) -> (r: bool)
    ensures
        r == (policy == ConflictPolicy::Overwrite && destination_exists),
{
    match policy {
        ConflictPolicy::Overwrite => destination_exists,
        _ => false,
    }
}

/// Whether a run takes the run lock: a dry run does not.
pub open spec fn locks_run(dry_run: bool) -> bool {
    !dry_run
}

/// Whether the run lock is taken before a run.
pub fn takes_lock(dry_run: bool) -> (r: bool)
    ensures
        r == locks_run(dry_run),
{
    !dry_run
}

/// What a run does with a source folder.
#[derive(Debug, Clone, Copy, PartialEq, Eq, Structural)]
pub enum RootStep {
    /// Scan the folder and move what it holds.
    Process,
    /// Report that the folder does not exist, count a failure and go on
    /// with the next folder.
    ReportMissing,
}

/// A source folder is processed when it is a directory.
pub open spec fn root_step_of(root_is_dir: bool) -> RootStep {
    if root_is_dir {
        RootStep::Process
    } else {
        RootStep::ReportMissing
    }
}

/// The step for a source folder.
pub fn root_step(root_is_dir: bool) -> (r: RootStep)
    ensures
        r == root_step_of(root_is_dir),
{
    if root_is_dir {
        RootStep::Process
    } else {
        RootStep::ReportMissing
    }
}

/// What a run does with an entry once its destination is settled.
#[derive(Debug, Clone, Copy, PartialEq, Eq, Structural)]
pub enum MoveStep {
    /// Leave the entry where it is (the skip is reported).
    Leave,
    /// Report the move that would be made, and make none.
    Report,
    /// Report the move, create the destination folder and move.
    ReportAndMove,
}

/// A skipped plan leaves the entry; otherwise a dry run only reports and a
/// real run reports and moves.
pub open spec fn move_step_of(plan: MovePlan, dry_run: bool) -> MoveStep {
    match plan {
        MovePlan::SkipConflict => MoveStep::Leave,
        MovePlan::SkipDirectoryDestination => MoveStep::Leave,
        _ => if dry_run {
            MoveStep::Report
        } else {
            MoveStep::ReportAndMove
        },
    }
}

/// The step for an entry with the settled plan `plan`.
pub fn move_step(plan: MovePlan, dry_run: bool) -> (r: MoveStep)
    ensures
        r == move_step_of(plan, dry_run),
{
    match plan {
        MovePlan::SkipConflict => MoveStep::Leave,
        MovePlan::SkipDirectoryDestination => MoveStep::Leave,
        _ => if dry_run {
            MoveStep::Report
        } else {
            MoveStep::ReportAndMove
        },
    }
}

/// The verb of the line that reports a move.
pub open spec fn move_verb_text(dry_run: bool) -> Seq<char> {
    if dry_run {
        "Se mover\u{ed}a"@
    } else {
        "Movido"@
    }
}

/// The verb of the line that reports a move: conditional in a dry run.
pub fn move_verb(dry_run: bool) -> (r: String)
    ensures
        r@ == move_verb_text(dry_run),
{
    if dry_run {
        owned("Se mover\u{ed}a")
    } else {
        owned("Movido")
    }
}

/// The failures of a run so far: source folders that do not exist and
/// entries that could not be moved.
pub struct RunTally {
    pub failures: u64,
}

/// The count after one more failure (it stays at `u64::MAX` once there).
pub open spec fn failures_after_one_more(failures: u64) -> u64 {
    if failures == u64::MAX {
        u64::MAX
    } else {
        (failures + 1) as u64
    }
}

/// A run succeeds when nothing failed, and otherwise fails with the count.
pub open spec fn run_outcome(failures: u64) -> Result<(), u64> {
    if failures == 0 {
        Ok(())
    } else {
        Err(failures)
    }
}

impl RunTally {
    /// A run with no failures yet.
    pub fn new() -> (r: RunTally)
        ensures
            r.failures == 0,
    {
        RunTally { failures: 0 }
    }

    /// Counts one more failure.
    pub fn record_failure(&mut self)
        ensures
            final(self).failures == failures_after_one_more(old(self).failures),
    {
        if self.failures < u64::MAX {
            self.failures = self.failures + 1;
        }
    }

    /// How the run ends: `Ok` when nothing failed, else `Err` with the count.
    pub fn outcome(&self) -> (r: Result<(), u64>)
        ensures
            r == run_outcome(self.failures),
    {
        if self.failures == 0 {
            Ok(())
        } else {
            Err(self.failures)
        }
    }
}

/// The message a failed run ends with.
pub fn failure_message(failures: u64) -> (r: String)
    ensures
        r@ == decimal(failures as nat) + " carpeta(s) o archivo(s) no se pudieron procesar"@,
{
    let mut out = String::new();
    push_decimal(&mut out, failures);
    assert(out@ =~= decimal(failures as nat));
    out.append(" carpeta(s) o archivo(s) no se pudieron procesar");
    out
}

/// The name tried for a file whose name is taken: `base (n).ext` when the
/// name has an extension after a non-empty base, `name (n)` otherwise; a
/// missing name reads `archivo`.
pub open spec fn candidate_name(file_name: Option<Seq<char>>, counter: nat) -> Seq<char> {
    let f = match file_name {
        Some(n) => n,
        None => "archivo"@,
    };
    let i = last_index_of(f, '.');
    if i > 0 {
        f.subrange(0, i) + " ("@ + decimal(counter) + ")."@ + f.subrange(i + 1, f.len() as int)
    } else {
        f + " ("@ + decimal(counter) + ")"@
    }
}

/// The `counter`-th name tried when renaming to avoid a conflict.
pub fn rename_candidate(file_name: Option<&str>, counter: u64) -> (r: String)
    ensures
        r@ == candidate_name(
            match file_name {
                Some(n) => Some(n@),
                None => None,
            },
            counter as nat,
        ),
{
    let f: &str = match file_name {
        Some(n) => n,
        None => "archivo",
    };
    match last_index_of_char(f, '.') {
        Some(i) => {
            if i > 0 {
                proof {
                    crate::text::lemma_last_index_of_bounds(f@, '.');
                }
                let n = f.unicode_len();
                let mut out = owned(f.substring_char(0, i));
                out.append(" (");
                push_decimal(&mut out, counter);
                out.append(").");
                out.append(f.substring_char(i + 1, n));
                return out;
            }
        },
        None => {},
    }
    let mut out = owned(f);
    out.append(" (");
    push_decimal(&mut out, counter);
    out.append(")");
    out
}

/// The `counter`-th path tried beside a taken destination in `directory`.
pub fn rename_destination(
    directory: &str,
    file_name: Option<&str>,
    counter: u64,
    platform: Platform,
) -> (r: String)
    ensures
        r@ == join_native(
            directory@,
            candidate_name(
                match file_name {
                    Some(n) => Some(n@),
                    None => None,
                },
                counter as nat,
            ),
            platform,
        ),
{
    let name = rename_candidate(file_name, counter);
    join_native_exec(directory, name.as_str(), platform)
}

/// The log timestamp: whole seconds since the UNIX epoch, or `0` when the
/// clock reads before it.
pub fn timestamp_text(seconds_since_epoch: Option<u64>) -> (r: String)
    ensures
        r@ == match seconds_since_epoch {
            Some(s) => decimal(s as nat),
            None => "0"@,
        },
{
    match seconds_since_epoch {
        Some(s) => {
            let mut out = String::new();
            push_decimal(&mut out, s);
            assert(out@ =~= decimal(s as nat));
            out
        },
        None => owned("0"),
    }
}

/// The log destinations that mean "no log file".
pub open spec fn is_null_device_name(p: Seq<char>) -> bool {
    p == "/dev/null"@ || p == "NUL"@ || p == "nul"@
}

/// Whether a log path (as text, when it is text) names the null device.
pub fn is_null_device(path: Option<&str>) -> (r: bool)
    ensures
        r == match path {
            Some(p) => is_null_device_name(p@),
            None => false,
        },
{
    match path {
        Some(p) => str_eq(p, "/dev/null") || str_eq(p, "NUL") || str_eq(p, "nul"),
        None => false,
    }
}


// ---------------------------------------------------------------------------
// Laws
// ---------------------------------------------------------------------------

/// Generated category directories are neither entered by the scan nor
/// moved as top-level directories.
pub proof fn law_generated_directories_are_left_alone(
    depth: nat,
    is_symlink: bool,
    path: Seq<char>,
    root: Seq<char>,
    c: ConfigView,
)
    requires
        depth > 0,
        is_generated_path(path, root, c),
    ensures
        !visits(depth, path, true, root, c),
        !is_top_level_candidate(depth, is_symlink, true, path, root, c),
{
}

/// Hidden entries are neither entered, processed nor moved when hidden
/// entries are ignored.
pub proof fn law_hidden_entries_are_ignored(
    depth: nat,
    is_symlink: bool,
    is_dir: bool,
    path: Seq<char>,
    root: Seq<char>,
    c: ConfigView,
)
    requires
        depth > 0,
        c.ignore_hidden,
        is_hidden_path(path),
    ensures
        !visits(depth, path, is_dir, root, c),
        !is_top_level_candidate(depth, is_symlink, is_dir, path, root, c),
{
}

/// A dry run takes no lock and moves nothing; it reports exactly the moves
/// that a real run over the same plans would make.
pub proof fn law_dry_run_changes_nothing(plan: MovePlan)
    ensures
        !locks_run(true),
        move_step_of(plan, true) != MoveStep::ReportAndMove,
        (move_step_of(plan, true) == MoveStep::Report) == (move_step_of(plan, false)
            == MoveStep::ReportAndMove),
        (move_step_of(plan, true) == MoveStep::Leave) == (move_step_of(plan, false) == MoveStep::Leave),
{
}

/// A run fails as soon as one failure is counted (a missing source folder
/// or an entry that could not be moved), and succeeds only with none.
pub proof fn law_one_failure_fails_the_run(failures: u64)
    ensures
        run_outcome(failures_after_one_more(failures)) is Err,
        run_outcome(failures) is Ok <==> failures == 0,
{
}

/// How a conflict is settled: a free destination is always used; an
/// existing one is renamed around under `Rename`, left alone under `Skip`,
/// and replaced only under `Overwrite` and only when it is not a
/// directory. An entry whose plan is not a skip is always reported.
pub proof fn law_conflicts_settle_by_policy(is_dir: bool, policy: ConflictPolicy, dry_run: bool)
    ensures
        move_plan(false, is_dir, policy) == MovePlan::Requested,
        move_plan(true, is_dir, ConflictPolicy::Rename) == MovePlan::UniqueName,
        move_plan(true, is_dir, ConflictPolicy::Skip) == MovePlan::SkipConflict,
        move_plan(true, true, ConflictPolicy::Overwrite) == MovePlan::SkipDirectoryDestination,
        move_plan(true, false, ConflictPolicy::Overwrite) == MovePlan::Requested,
        move_plan(true, is_dir, policy) == MovePlan::Requested ==> policy == ConflictPolicy::Overwrite
            && !is_dir,
        move_step_of(MovePlan::Requested, dry_run) != MoveStep::Leave,
        move_step_of(MovePlan::UniqueName, dry_run) != MoveStep::Leave,
        move_step_of(MovePlan::SkipConflict, dry_run) == MoveStep::Leave,
        move_step_of(MovePlan::SkipDirectoryDestination, dry_run) == MoveStep::Leave,
{
}

/// A renamed entry never takes the name it was renamed around: every
/// candidate is longer than the taken name.
pub proof fn law_rename_candidate_differs_from_taken_name(name: Seq<char>, counter: nat)
    ensures
        candidate_name(Some(name), counter).len() > name.len(),
        candidate_name(Some(name), counter) != name,
{
    crate::text::lemma_last_index_of_bounds(name, '.');
    reveal_strlit(" (");
    reveal_strlit(").");
    reveal_strlit(")");
    assert(decimal(counter).len() >= 1);
}

/// The names tried when renaming: `base.ext` becomes `base (n).ext` (the
/// counter goes before the last extension, and the base keeps its own
/// dots); a name without a dot, or whose only dot leads it, gets ` (n)` at
/// the end; a missing name reads `archivo`.
pub proof fn law_rename_candidate_forms(base: Seq<char>, ext: Seq<char>, plain: Seq<char>, counter: nat)
    requires
        base.len() > 0,
        !ext.contains('.'),
        !plain.contains('.'),
    ensures
        candidate_name(Some(base + seq!['.'] + ext), counter) == base + " ("@ + decimal(counter)
            + ")."@ + ext,
        candidate_name(Some(plain), counter) == plain + " ("@ + decimal(counter) + ")"@,
        candidate_name(Some(seq!['.'] + plain), counter) == seq!['.'] + plain + " ("@ + decimal(
            counter,
        ) + ")"@,
        candidate_name(None, counter) == "archivo"@ + " ("@ + decimal(counter) + ")"@,
{
    crate::text::lemma_last_index_of_split(base, '.', ext);
    crate::text::lemma_last_index_of_absent(plain, '.');
    crate::text::lemma_last_index_of_split(Seq::<char>::empty(), '.', plain);
    assert(Seq::<char>::empty() + seq!['.'] + plain =~= seq!['.'] + plain);
    let n = base + seq!['.'] + ext;
    assert(n.subrange(0, base.len() as int) =~= base);
    assert(n.subrange(base.len() + 1 as int, n.len() as int) =~= ext);
    reveal_strlit("archivo");
    assert(!"archivo"@.contains('.')) by {
        if "archivo"@.contains('.') {
            let k = choose|k: int| 0 <= k < "archivo"@.len() && "archivo"@[k] == '.';
        }
    }
    crate::text::lemma_last_index_of_absent("archivo"@, '.');
}

/// Which top-level directories move depends only on the entry, the
/// `[[categories]]` names and `ignore_hidden`: a depth-1 directory that is
/// not a symbolic link, not hidden (or hidden ones are kept) and not a
/// generated category moves, whether or not the scan is recursive.
pub proof fn law_top_level_directories_move_whatever_the_recursion(
    depth: nat,
    is_symlink: bool,
    is_dir: bool,
    path: Seq<char>,
    root: Seq<char>,
    c1: ConfigView,
    c2: ConfigView,
)
    requires
        c1.categories == c2.categories,
        c1.ignore_hidden == c2.ignore_hidden,
    ensures
        is_top_level_candidate(depth, is_symlink, is_dir, path, root, c1) == is_top_level_candidate(
            depth,
            is_symlink,
            is_dir,
            path,
            root,
            c2,
        ),
        depth > 0 && !(c1.ignore_hidden && is_hidden_path(path)) && !is_generated_path(path, root, c1)
            ==> is_top_level_candidate(depth, false, true, path, root, c1),
{
    assert forall|x: Seq<char>| is_generated_name(c1, x) == is_generated_name(c2, x) by {}
    assert(is_generated_path(path, root, c1) == is_generated_path(path, root, c2));
}

/// The scan enters the root, and below it every entry that is neither
/// hidden (while hidden entries are ignored) nor a generated category
/// directory; a file found is processed unless it is hidden and hidden
/// entries are ignored.
pub proof fn law_scan_enters_ordinary_entries(
    depth: nat,
    path: Seq<char>,
    is_dir: bool,
    root: Seq<char>,
    c: ConfigView,
)
    ensures
        visits(0, path, is_dir, root, c),
        !(c.ignore_hidden && is_hidden_path(path)) && !(is_dir && is_generated_path(path, root, c))
            ==> visits(depth, path, is_dir, root, c),
        !(c.ignore_hidden && is_hidden_path(path)) ==> visits(depth, path, false, root, c),
        !c.ignore_hidden ==> visits(depth, path, false, root, c),
{
}

/// A path in the excluded list is excluded, and so is any spelling of it
/// with the same components; nothing is excluded by an empty list.
pub proof fn law_listed_paths_are_excluded(path: Seq<char>, other: Seq<char>, excluded: Seq<Seq<char>>, i: int)
    ensures
        0 <= i < excluded.len() && excluded[i] == path ==> is_excluded(path, excluded),
        0 <= i < excluded.len() && path_components(excluded[i]) == path_components(other) ==> is_excluded(
            other,
            excluded,
        ),
        !is_excluded(path, Seq::<Seq<char>>::empty()),
{
    if 0 <= i < excluded.len() && excluded[i] == path {
        assert(same_path(path, excluded[i]));
    }
    if 0 <= i < excluded.len() && path_components(excluded[i]) == path_components(other) {
        assert(same_path(other, excluded[i]));
    }
}

/// Renaming keeps the extension: when a name has an extension after a
/// non-empty base, every candidate ends with that `.extension`.
pub proof fn law_rename_keeps_extension(name: Seq<char>, counter: nat)
    requires
        last_index_of(name, '.') > 0,
    ensures
        ({
            let i = last_index_of(name, '.');
            let ext = name.subrange(i, name.len() as int);
            let r = candidate_name(Some(name), counter);
            r.len() >= ext.len() && r.subrange(r.len() - ext.len(), r.len() as int) == ext
        }),
{
    crate::text::lemma_last_index_of_bounds(name, '.');
    reveal_strlit(").");
    let i = last_index_of(name, '.');
    let ext = name.subrange(i, name.len() as int);
    let r = candidate_name(Some(name), counter);
    assert(r =~= name.subrange(0, i) + " ("@ + decimal(counter) + ")."@ + name.subrange(i + 1, name.len() as int));
    assert(r.subrange(r.len() - ext.len(), r.len() as int) =~= ext);
}

} // verus!
