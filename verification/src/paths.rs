//! Paths as text: component parsing on POSIX separators
//! (`Path::components`), joining (`PathBuf::push`) with the separators of a
//! platform, file names and hidden entries.

use vstd::prelude::*;

use crate::categories::{separators, Platform};
use crate::text::{
    lemma_split_by_concat, lemma_split_by_nonempty, lemma_split_by_single, owned, push_char, split_by,
    split_str, str_eq,
};

verus! {

/// The separator of path components.
pub open spec fn slash() -> Seq<char> {
    seq!['/']
}

/// The component that stands for the root directory.
pub open spec fn root_component() -> Seq<char> {
    seq!['/']
}

/// The component that stands for the current directory.
pub open spec fn cur_dir_component() -> Seq<char> {
    seq!['.']
}

/// The component that stands for the parent directory.
pub open spec fn parent_dir_component() -> Seq<char> {
    seq!['.', '.']
}

/// A piece between separators that is a component of its own: empty pieces
/// and `.` pieces are dropped by `Path::components`.
pub open spec fn is_kept_piece(x: Seq<char>) -> bool {
    x.len() > 0 && x != cur_dir_component()
}

/// The kept pieces, in order.
pub open spec fn kept_pieces(pieces: Seq<Seq<char>>) -> Seq<Seq<char>>
    decreases pieces.len(),
{
    if pieces.len() == 0 {
        Seq::empty()
    } else {
        let r = kept_pieces(pieces.drop_last());
        if is_kept_piece(pieces.last()) {
            r.push(pieces.last())
        } else {
            r
        }
    }
}

/// The path starts at the root.
pub open spec fn has_root(p: Seq<char>) -> bool {
    p.len() > 0 && p[0] == '/'
}

/// `Path::components` on POSIX paths: a root component when the path starts
/// with `/`, a leading `.` when a relative path starts with one, then every
/// non-empty piece other than `.` (`..` is kept).
pub open spec fn path_components(p: Seq<char>) -> Seq<Seq<char>> {
    let pieces = split_by(p, slash());
    let head = if has_root(p) {
        seq![root_component()]
    } else if pieces[0] == cur_dir_component() {
        seq![cur_dir_component()]
    } else {
        Seq::<Seq<char>>::empty()
    };
    head + kept_pieces(pieces)
}

/// `Path::file_name`: the last component when it is a name (not the root,
/// `.` or `..`).
pub open spec fn file_name_of(p: Seq<char>) -> Option<Seq<char>> {
    let c = path_components(p);
    if c.len() > 0 && c.last() != root_component() && c.last() != cur_dir_component()
        && c.last() != parent_dir_component() {
        Some(c.last())
    } else {
        None
    }
}

/// `Path::starts_with`: the components of `base` are a prefix of those of `p`.
pub open spec fn path_starts_with(p: Seq<char>, base: Seq<char>) -> bool {
    path_components(base).is_prefix_of(path_components(p))
}

/// `base.join(rest)` (`PathBuf::push` on POSIX): an absolute `rest` replaces
/// `base`; otherwise a `/` is put between them unless `base` is empty or
/// already ends with one.
pub open spec fn join_path(base: Seq<char>, rest: Seq<char>) -> Seq<char> {
    if has_root(rest) {
        rest
    } else if base.len() > 0 && base.last() != '/' {
        base + slash() + rest
    } else {
        base + rest
    }
}

/// The file name starts with a dot.
pub open spec fn is_hidden_path(p: Seq<char>) -> bool {
    match file_name_of(p) {
        Some(n) => n.len() > 0 && n[0] == '.',
        None => false,
    }
}

/// The pieces of a path that `Path::components` keeps.
fn kept_pieces_exec(pieces: Vec<String>) -> (r: Vec<String>)
    ensures
        r@.map_values(|x: String| x@) == kept_pieces(pieces@.map_values(|x: String| x@)),
{
    let ghost pv = pieces@.map_values(|x: String| x@);
    let mut out: Vec<String> = Vec::new();
    let mut i: usize = 0;
    let dot = owned(".");
    proof {
        reveal_strlit(".");
        assert(pv.take(0) =~= Seq::<Seq<char>>::empty());
    }
    while i < pieces.len()
        invariant
            i <= pieces@.len(),
            pv == pieces@.map_values(|x: String| x@),
            dot@ == cur_dir_component(),
            out@.map_values(|x: String| x@) == kept_pieces(pv.take(i as int)),
        decreases pieces.len() - i,
    {
        let ghost before = out@.map_values(|x: String| x@);
        assert(pv.take(i + 1).drop_last() =~= pv.take(i as int));
        assert(pv.take(i + 1).last() == pieces@[i as int]@);
        let x = pieces[i].clone();
        let nonempty = x.as_str().unicode_len() > 0;
        if nonempty && !(x == dot) {
            out.push(x);
            assert(out@.map_values(|x: String| x@) =~= before.push(pv[i as int]));
        }
        i = i + 1;
    }
    assert(pv.take(pieces@.len() as int) =~= pv);
    out
}

/// `Path::components` of a POSIX path, each component as text.
pub fn path_components_exec(p: &str) -> (r: Vec<String>)
    ensures
        r@.map_values(|x: String| x@) == path_components(p@),
{
    let mut seps: Vec<char> = Vec::new();
    seps.push('/');
    assert(seps@ =~= slash());
    let pieces = split_str(p, &seps);
    proof {
        lemma_split_by_nonempty(p@, slash());
    }
    let ghost pv = pieces@.map_values(|x: String| x@);
    proof {
        reveal_strlit("/");
        reveal_strlit(".");
        assert("/"@ =~= root_component());
        assert("."@ =~= cur_dir_component());
    }
    let rooted = p.unicode_len() > 0 && p.get_char(0) == '/';
    let mut out: Vec<String> = Vec::new();
    let ghost head: Seq<Seq<char>>;
    if rooted {
        out.push(owned("/"));
        proof {
            head = seq![root_component()];
        }
    } else {
        let first = pieces[0].clone();
        assert(first@ == pv[0]);
        if str_eq(first.as_str(), ".") {
            out.push(owned("."));
            proof {
                head = seq![cur_dir_component()];
            }
        } else {
            proof {
                head = Seq::empty();
            }
        }
    }
    assert(out@.map_values(|x: String| x@) =~= head);
    let kept = kept_pieces_exec(pieces);
    let mut j: usize = 0;
    while j < kept.len()
        invariant
            j <= kept@.len(),
            out@.map_values(|x: String| x@) == head + kept@.map_values(|x: String| x@).take(j as int),
        decreases kept.len() - j,
    {
        let ghost before = out@.map_values(|x: String| x@);
        let ghost kv = kept@.map_values(|x: String| x@);
        let item = kept[j].clone();
        assert(item@ == kv[j as int]);
        out.push(item);
        assert(kv.take(j + 1) =~= kv.take(j as int).push(kv[j as int]));
        assert(out@.map_values(|x: String| x@) =~= before.push(item@));
        assert(out@.map_values(|x: String| x@) =~= head + kv.take(j + 1));
        j = j + 1;
    }
    assert(kept@.map_values(|x: String| x@).take(kept@.len() as int) =~= kept@.map_values(
        |x: String| x@,
    ));
    out
}

/// `Path::file_name` of a POSIX path.
pub fn file_name(p: &str) -> (r: Option<String>)
    ensures
        r matches Some(n) ==> file_name_of(p@) == Some(n@),
        r is None ==> file_name_of(p@) is None,
{
    let comps = path_components_exec(p);
    let ghost cv = comps@.map_values(|x: String| x@);
    proof {
        reveal_strlit("/");
        reveal_strlit(".");
        reveal_strlit("..");
        assert("/"@ =~= root_component());
        assert("."@ =~= cur_dir_component());
        assert(".."@ =~= parent_dir_component());
    }
    if comps.len() == 0 {
        return None;
    }
    let last = comps[comps.len() - 1].clone();
    assert(last@ == cv.last());
    if str_eq(last.as_str(), "/") || str_eq(last.as_str(), ".") || str_eq(last.as_str(), "..") {
        None
    } else {
        Some(last)
    }
}

/// `base.join(rest)` on POSIX paths.
pub fn join_path_exec(base: &str, rest: &str) -> (r: String)
    ensures
        r@ == join_path(base@, rest@),
{
    let rest_rooted = rest.unicode_len() > 0 && rest.get_char(0) == '/';
    if rest_rooted {
        return owned(rest);
    }
    let n = base.unicode_len();
    let mut out = owned(base);
    if n > 0 && base.get_char(n - 1) != '/' {
        push_char(&mut out, '/');
    }
    out.append(rest);
    proof {
        reveal_strlit("/");
    }
    out
}

/// Whether the components of `base` are a prefix of those of `p`.
pub fn path_starts_with_exec(p: &str, base: &str) -> (r: bool)
    ensures
        r == path_starts_with(p@, base@),
{
    let pc = path_components_exec(p);
    let bc = path_components_exec(base);
    let ghost pv = pc@.map_values(|x: String| x@);
    let ghost bv = bc@.map_values(|x: String| x@);
    if bc.len() > pc.len() {
        return false;
    }
    let mut i: usize = 0;
    while i < bc.len()
        invariant
            i <= bc@.len() <= pc@.len(),
            pv == pc@.map_values(|x: String| x@),
            bv == bc@.map_values(|x: String| x@),
            pv == path_components(p@),
            bv == path_components(base@),
            forall|j: int| 0 <= j < i ==> #[trigger] bv[j] == pv[j],
        decreases bc.len() - i,
    {
        if !(bc[i] == pc[i]) {
            assert(bv[i as int] != pv[i as int]);
            assert(bv[i as int] != pv.subrange(0, bv.len() as int)[i as int]);
            return false;
        }
        i = i + 1;
    }
    assert(bv =~= pv.subrange(0, bv.len() as int));
    true
}

/// The file name of `p` starts with a dot.
pub fn is_hidden(p: &str) -> (r: bool)
    ensures
        r == is_hidden_path(p@),
{
    match file_name(p) {
        Some(n) => n.as_str().unicode_len() > 0 && n.as_str().get_char(0) == '.',
        None => false,
    }
}


/// One character of native path text as the library reads it: on Windows
/// `\\` separates components just as `/` does, so it reads as `/`.
pub open spec fn posix_char(c: char, p: Platform) -> char {
    if p == Platform::Windows && c == '\\' {
        '/'
    } else {
        c
    }
}

/// Native path text with every separator written as `/`.
pub open spec fn posix_text(s: Seq<char>, p: Platform) -> Seq<char> {
    s.map_values(|c: char| posix_char(c, p))
}

/// The text of a native path in the form the library reads: on Windows each
/// `\\` becomes `/` (both separate components there); elsewhere the text is
/// kept as it is.
pub fn path_text_for(raw: &str, platform: Platform) -> (r: String)
    ensures
        r@ == posix_text(raw@, platform),
{
    let n = raw.unicode_len();
    let mut out = String::new();
    let mut i: usize = 0;
    while i < n
        invariant
            n == raw@.len(),
            i <= n,
            out@ == posix_text(raw@.subrange(0, i as int), platform),
        decreases n - i,
    {
        let c = raw.get_char(i);
        let d = match platform {
            Platform::Windows => if c == '\\' {
                '/'
            } else {
                c
            },
            Platform::Posix => c,
        };
        push_char(&mut out, d);
        i = i + 1;
        assert(raw@.subrange(0, i as int) =~= raw@.subrange(0, (i - 1) as int).push(c));
        assert(posix_text(raw@.subrange(0, i as int), platform) =~= posix_text(
            raw@.subrange(0, (i - 1) as int),
            platform,
        ).push(d));
    }
    assert(raw@.subrange(0, n as int) =~= raw@);
    out
}

/// `a == b` on paths: the same components (`Path`'s equality).
pub open spec fn same_path(a: Seq<char>, b: Seq<char>) -> bool {
    path_components(a) == path_components(b)
}

/// Whether two paths have the same components.
pub fn same_path_exec(a: &str, b: &str) -> (r: bool)
    ensures
        r == same_path(a@, b@),
{
    let ab = path_starts_with_exec(a, b);
    let ba = path_starts_with_exec(b, a);
    proof {
        let ca = path_components(a@);
        let cb = path_components(b@);
        if ab && ba {
            assert(ca.len() == cb.len());
            assert(cb =~= ca.subrange(0, cb.len() as int));
            assert(ca =~= cb);
        }
        if ca == cb {
            assert(ca.subrange(0, ca.len() as int) =~= ca);
        }
    }
    ab && ba
}


/// The separator that joining writes on `p`.
pub open spec fn primary_separator(p: Platform) -> char {
    match p {
        Platform::Posix => '/',
        Platform::Windows => '\\',
    }
}

/// A Windows path prefix at the start of `s`: a drive (`C:`), or the two
/// leading separators of a UNC, verbatim or device path.
pub open spec fn has_windows_prefix(s: Seq<char>) -> bool {
    ||| (s.len() >= 2 && (('a' <= s[0] && s[0] <= 'z') || ('A' <= s[0] && s[0] <= 'Z')) && s[1] == ':')
    ||| (s.len() >= 2 && separators(Platform::Windows).contains(s[0]) && separators(
        Platform::Windows,
    ).contains(s[1]))
}

/// The drive prefix (`C:`) of a Windows path, or nothing.
pub open spec fn drive_prefix(s: Seq<char>) -> Seq<char> {
    if s.len() >= 2 && (('a' <= s[0] && s[0] <= 'z') || ('A' <= s[0] && s[0] <= 'Z')) && s[1] == ':' {
        s.take(2)
    } else {
        Seq::empty()
    }
}

/// `base.join(rest)` (`PathBuf::push`) written with the separators of `p`.
/// A `rest` with a prefix of its own (Windows) replaces `base`; a `rest`
/// that starts with a separator replaces all of `base` but its drive
/// prefix (on POSIX, all of it); otherwise the primary separator goes
/// between them unless `base` is empty or already ends with a separator.
/// The prefix kept on Windows is the drive (`C:`); a UNC share of `base`
/// is not kept.
pub open spec fn join_native(base: Seq<char>, rest: Seq<char>, p: Platform) -> Seq<char> {
    if p == Platform::Windows && has_windows_prefix(rest) {
        rest
    } else if rest.len() > 0 && separators(p).contains(rest[0]) {
        if p == Platform::Windows {
            drive_prefix(base) + rest
        } else {
            rest
        }
    } else if base.len() > 0 && !separators(p).contains(base.last()) {
        base + seq![primary_separator(p)] + rest
    } else {
        base + rest
    }
}

/// On POSIX the native join is the plain path join.
pub proof fn law_posix_join_is_path_join(base: Seq<char>, rest: Seq<char>)
    ensures
        join_native(base, rest, Platform::Posix) == join_path(base, rest),
{
    let seps = separators(Platform::Posix);
    assert(seps[0] == '/');
    assert forall|c: char| seps.contains(c) <==> c == '/' by {
        if c == '/' {
            assert(seps[0] == c);
        }
    }
    assert(seq![primary_separator(Platform::Posix)] =~= slash());
}

/// Joining a relative name: one separator goes between the base and the
/// name (`/` on POSIX, `\` on Windows), none when the base is empty or
/// already ends with a separator (either kind on Windows); a rooted name
/// stands alone on POSIX and keeps only the drive of the base on Windows;
/// a name with a drive of its own replaces the base on Windows.
pub proof fn law_join_puts_one_separator(base: Seq<char>, name: Seq<char>, p: Platform, drive: char)
    requires
        name.len() > 0,
        name[0] != '/' && name[0] != '\\',
        !(name.len() >= 2 && name[1] == ':'),
        'A' <= drive <= 'Z',
    ensures
        base.len() > 0 && base.last() != '/' ==> join_native(base, name, Platform::Posix) == base
            + seq!['/'] + name,
        base.len() > 0 && base.last() != '/' && base.last() != '\\' ==> join_native(
            base,
            name,
            Platform::Windows,
        ) == base + seq!['\\'] + name,
        base.len() > 0 && (base.last() == '/' || (p == Platform::Windows && base.last() == '\\'))
            ==> join_native(base, name, p) == base + name,
        join_native(Seq::<char>::empty(), name, p) == name,
        join_native(base, seq!['/'] + name, Platform::Posix) == seq!['/'] + name,
        join_native(seq![drive, ':', '\\'] + base, seq!['\\'] + name, Platform::Windows) == seq![
            drive,
            ':',
            '\\',
        ] + name,
        join_native(base, seq![drive, ':'] + name, Platform::Windows) == seq![drive, ':'] + name,
{
    let w = separators(Platform::Windows);
    let x = separators(Platform::Posix);
    assert(w[0] == '/' && w[1] == '\\' && w.len() == 2);
    assert(x[0] == '/' && x.len() == 1);
    assert forall|c: char| w.contains(c) <==> (c == '/' || c == '\\') by {
        if c == '/' {
            assert(w[0] == c);
        }
        if c == '\\' {
            assert(w[1] == c);
        }
    }
    assert forall|c: char| x.contains(c) <==> c == '/' by {
        if c == '/' {
            assert(x[0] == c);
        }
    }
    let r1 = seq!['/'] + name;
    assert(r1[0] == '/');
    let b2 = seq![drive, ':', '\\'] + base;
    let r2 = seq!['\\'] + name;
    assert(r2[0] == '\\' && r2[1] == name[0]);
    assert(drive_prefix(b2) =~= seq![drive, ':']);
    assert(seq![drive, ':'] + r2 =~= seq![drive, ':', '\\'] + name);
    let r3 = seq![drive, ':'] + name;
    assert(r3[0] == drive && r3[1] == ':');
}

/// The file name of a path is its last name: `dir/name`, `dir/name/` and
/// a bare `name` all have the file name `name` (any text without `/` other
/// than `.` and `..`), and the entry is hidden exactly when that name
/// starts with a dot.
pub proof fn law_file_name_is_last_component(dir: Seq<char>, name: Seq<char>)
    requires
        name.len() > 0,
        !name.contains('/'),
        name != seq!['.'],
        name != seq!['.', '.'],
    ensures
        file_name_of(dir + seq!['/'] + name) == Some(name),
        file_name_of(dir + seq!['/'] + name + seq!['/']) == Some(name),
        file_name_of(name) == Some(name),
        is_hidden_path(dir + seq!['/'] + name) == (name[0] == '.'),
        is_hidden_path(name) == (name[0] == '.'),
{
    let sl = slash();
    assert(sl[0] == '/');
    assert forall|c: char| sl.contains(c) <==> c == '/' by {
        if c == '/' {
            assert(sl[0] == c);
        }
    }
    assert forall|j: int| 0 <= j < name.len() implies !sl.contains(#[trigger] name[j]) by {
        if name[j] == '/' {
            assert(name.contains(name[j]));
        }
    }
    lemma_split_by_single(name, sl);
    assert(name != root_component()) by {
        if name == root_component() {
            assert(name[0] == '/');
            assert(name.contains('/'));
        }
    }
    assert(is_kept_piece(name));
    // dir/name
    lemma_split_by_concat(dir, '/', name, sl);
    let x = split_by(dir, sl);
    assert((x + seq![name]).drop_last() =~= x);
    assert(kept_pieces(x + seq![name]) == kept_pieces(x).push(name));
    // dir/name/
    let e = Seq::<char>::empty();
    lemma_split_by_concat(name, '/', e, sl);
    assert(name + seq!['/'] + e =~= name + seq!['/']);
    assert(split_by(e, sl) =~= seq![e]);
    assert(split_by(name + seq!['/'], sl) =~= seq![name, e]);
    lemma_split_by_concat(dir, '/', name + seq!['/'], sl);
    assert(dir + seq!['/'] + (name + seq!['/']) =~= dir + seq!['/'] + name + seq!['/']);
    assert(x + seq![name, e] =~= (x + seq![name]).push(e));
    assert(((x + seq![name]).push(e)).drop_last() =~= x + seq![name]);
    assert(kept_pieces((x + seq![name]).push(e)) == kept_pieces(x + seq![name]));
    // name
    assert(seq![name].drop_last() =~= Seq::<Seq<char>>::empty());
    assert(seq![name].last() == name);
    assert(kept_pieces(Seq::<Seq<char>>::empty()) =~= Seq::<Seq<char>>::empty());
    assert(Seq::<Seq<char>>::empty().push(name) =~= seq![name]);
    assert(kept_pieces(seq![name]) =~= seq![name]);
    assert(!has_root(name)) by {
        if has_root(name) {
            assert(name.contains('/'));
        }
    }
    assert(split_by(name, sl)[0] == name);
    let c = path_components(name);
    assert(c =~= seq![name]);
}

/// Whether `c` is an ASCII letter.
fn is_ascii_letter(c: char) -> (r: bool)
    ensures
        r == (('a' <= c && c <= 'z') || ('A' <= c && c <= 'Z')),
{
    ('a' <= c && c <= 'z') || ('A' <= c && c <= 'Z')
}

/// `base.join(rest)` on native path text of `platform`.
pub fn join_native_exec(base: &str, rest: &str, platform: Platform) -> (r: String)
    ensures
        r@ == join_native(base@, rest@, platform),
{
    let mut seps: Vec<char> = Vec::new();
    seps.push('/');
    let sep: char = match platform {
        Platform::Posix => '/',
        Platform::Windows => {
            seps.push('\\');
            '\\'
        },
    };
    assert(seps@ =~= separators(platform));
    let windows = match platform {
        Platform::Windows => true,
        Platform::Posix => false,
    };
    let m = rest.unicode_len();
    if windows && m >= 2 {
        let r0 = rest.get_char(0);
        let r1 = rest.get_char(1);
        assert(separators(Platform::Windows) == seps@);
        if (is_ascii_letter(r0) && r1 == ':') || (crate::text::char_in(r0, &seps)
            && crate::text::char_in(r1, &seps)) {
            return owned(rest);
        }
    }
    assert(!(windows && has_windows_prefix(rest@)));
    let n = base.unicode_len();
    if m > 0 && crate::text::char_in(rest.get_char(0), &seps) {
        if windows && n >= 2 && is_ascii_letter(base.get_char(0)) && base.get_char(1) == ':' {
            let mut out = owned(base.substring_char(0, 2));
            out.append(rest);
            assert(base@.subrange(0, 2) =~= base@.take(2));
            return out;
        }
        assert(windows ==> drive_prefix(base@) =~= Seq::<char>::empty());
        assert(windows ==> drive_prefix(base@) + rest@ =~= rest@);
        return owned(rest);
    }
    let mut out = owned(base);
    if n > 0 && !crate::text::char_in(base.get_char(n - 1), &seps) {
        push_char(&mut out, sep);
    }
    out.append(rest);
    out
}

} // verus!
