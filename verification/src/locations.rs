//! Where things live: the home directory, the configuration file, the run
//! lock, and the Downloads directory candidates (including the parse of
//! `XDG_DOWNLOAD_DIR` from `user-dirs.dirs`). The environment is read by the
//! caller and handed in as values.

use vstd::prelude::*;

use crate::categories::Platform;
use crate::config::{expand_home, expand_home_path, opt_string_view, strings_view};
use crate::paths::{join_native, join_native_exec, join_path, join_path_exec};
use crate::text::{
    owned, split_by, split_str, starts_with, str_eq, strip_prefix_str, trim, trim_char,
    trim_char_str, trim_str,
};

verus! {

/// The operating system family the program was built for.
#[derive(Debug, Clone, Copy, PartialEq, Eq, Structural)]
pub enum HostOs {
    Linux,
    MacOs,
    Windows,
    Other,
}

/// The path conventions of an operating system: Windows separators on
/// Windows, POSIX ones elsewhere.
pub open spec fn path_platform(os: HostOs) -> Platform {
    if os == HostOs::Windows {
        Platform::Windows
    } else {
        Platform::Posix
    }
}

/// The path conventions of `os`.
pub fn platform_for_os(os: HostOs) -> (r: Platform)
    ensures
        r == path_platform(os),
{
    match os {
        HostOs::Windows => Platform::Windows,
        _ => Platform::Posix,
    }
}

/// `HOME`, else `USERPROFILE`, else `.`.
pub open spec fn home_directory_spec(home: Option<Seq<char>>, userprofile: Option<Seq<char>>) -> Seq<char> {
    match home {
        Some(h) => h,
        None => match userprofile {
            Some(u) => u,
            None => seq!['.'],
        },
    }
}

/// The home directory from the values of `HOME` and `USERPROFILE`.
pub fn home_directory(home: Option<String>, userprofile: Option<String>) -> (r: String)
    ensures
        r@ == home_directory_spec(opt_string_view(home), opt_string_view(userprofile)),
{
    proof {
        reveal_strlit(".");
        assert("."@ =~= seq!['.']);
    }
    match home {
        Some(h) => h,
        None => match userprofile {
            Some(u) => u,
            None => owned("."),
        },
    }
}

/// The home directory used for Downloads detection: `USERPROFILE` on
/// Windows and `HOME` elsewhere.
pub fn home_from_env(os: HostOs, home: Option<String>, userprofile: Option<String>) -> (r: Option<String>)
    ensures
        opt_string_view(r) == if os == HostOs::Windows {
            opt_string_view(userprofile)
        } else {
            opt_string_view(home)
        },
{
    match os {
        HostOs::Windows => userprofile,
        _ => home,
    }
}

/// The configuration file: `ORGANIZA_CONFIG` when set; otherwise
/// `organiza\config.toml` under `%APPDATA%` (default
/// `<home>\AppData\Roaming`) on Windows, or `organiza/config.toml` under
/// `$XDG_CONFIG_HOME` (default `<home>/.config`) elsewhere. Each join uses
/// the separators of `os`.
pub open spec fn config_file_path(
    organiza_config: Option<Seq<char>>,
    appdata: Option<Seq<char>>,
    xdg_config_home: Option<Seq<char>>,
    home: Seq<char>,
    os: HostOs,
) -> Seq<char> {
    let p = path_platform(os);
    match organiza_config {
        Some(c) => c,
        None => {
            let base = if os == HostOs::Windows {
                match appdata {
                    Some(a) => a,
                    None => join_native(join_native(home, "AppData"@, p), "Roaming"@, p),
                }
            } else {
                match xdg_config_home {
                    Some(x) => x,
                    None => join_native(home, ".config"@, p),
                }
            };
            join_native(join_native(base, "organiza"@, p), "config.toml"@, p)
        },
    }
}

/// The default configuration file path.
pub fn config_path(
    organiza_config: Option<String>,
    appdata: Option<String>,
    xdg_config_home: Option<String>,
    home: &str,
    os: HostOs,
) -> (r: String)
    ensures
        r@ == config_file_path(
            opt_string_view(organiza_config),
            opt_string_view(appdata),
            opt_string_view(xdg_config_home),
            home@,
            os,
        ),
{
    if let Some(c) = organiza_config {
        return c;
    }
    let p = platform_for_os(os);
    let base = match os {
        HostOs::Windows => match appdata {
            Some(a) => a,
            None => join_native_exec(join_native_exec(home, "AppData", p).as_str(), "Roaming", p),
        },
        _ => match xdg_config_home {
            Some(x) => x,
            None => join_native_exec(home, ".config", p),
        },
    };
    join_native_exec(join_native_exec(base.as_str(), "organiza", p).as_str(), "config.toml", p)
}

/// The run lock: `organiza.lock` under `%LOCALAPPDATA%` (default
/// `<home>\AppData\Local`) on Windows, or `<home>/.cache/organiza.lock`
/// elsewhere.
pub open spec fn lock_file_path(localappdata: Option<Seq<char>>, home: Seq<char>, os: HostOs) -> Seq<char> {
    let p = path_platform(os);
    if os == HostOs::Windows {
        let base = match localappdata {
            Some(l) => l,
            None => join_native(join_native(home, "AppData"@, p), "Local"@, p),
        };
        join_native(base, "organiza.lock"@, p)
    } else {
        join_native(join_native(home, ".cache"@, p), "organiza.lock"@, p)
    }
}

/// The path of the run lock.
pub fn lock_path(localappdata: Option<String>, home: &str, os: HostOs) -> (r: String)
    ensures
        r@ == lock_file_path(opt_string_view(localappdata), home@, os),
{
    let p = platform_for_os(os);
    match os {
        HostOs::Windows => {
            let base = match localappdata {
                Some(l) => l,
                None => join_native_exec(join_native_exec(home, "AppData", p).as_str(), "Local", p),
            };
            join_native_exec(base.as_str(), "organiza.lock", p)
        },
        _ => join_native_exec(join_native_exec(home, ".cache", p).as_str(), "organiza.lock", p),
    }
}

/// The `user-dirs.dirs` file under a home directory.
pub fn user_dirs_path(home: &str) -> (r: String)
    ensures
        r@ == join_path(join_path(home@, ".config"@), "user-dirs.dirs"@),
{
    join_path_exec(join_path_exec(home, ".config").as_str(), "user-dirs.dirs")
}

// ---------------------------------------------------------------------------
// XDG_DOWNLOAD_DIR
// ---------------------------------------------------------------------------

/// The unquoted value of a `XDG_DOWNLOAD_DIR=` line, if `line` is one
/// (after trimming white space).
pub open spec fn xdg_line_value(line: Seq<char>) -> Option<Seq<char>> {
    let t = trim(line);
    let key = "XDG_DOWNLOAD_DIR="@;
    if starts_with(t, key) {
        Some(trim_char(t.subrange(key.len() as int, t.len() as int), '"'))
    } else {
        None
    }
}

/// The value of the first `XDG_DOWNLOAD_DIR=` line.
pub open spec fn first_xdg_value(lines: Seq<Seq<char>>) -> Option<Seq<char>>
    decreases lines.len(),
{
    if lines.len() == 0 {
        None
    } else {
        match first_xdg_value(lines.drop_last()) {
            Some(v) => Some(v),
            None => xdg_line_value(lines.last()),
        }
    }
}

/// `XDG_DOWNLOAD_DIR` from the text of `user-dirs.dirs`: the first such
/// line decides; an empty value gives nothing; `$HOME/rest` is
/// `home.join(rest)` and `$HOME` is `home`. Lines are taken between `\n`
/// characters; a `\r` before the `\n` is removed by the trim.
pub open spec fn xdg_download_dir(contents: Seq<char>, home: Seq<char>) -> Option<Seq<char>> {
    match first_xdg_value(split_by(contents, seq!['\n'])) {
        None => None,
        Some(v) => if v.len() == 0 {
            None
        } else if starts_with(v, "$HOME/"@) {
            Some(join_path(home, v.subrange(6, v.len() as int)))
        } else if v == "$HOME"@ {
            Some(home)
        } else {
            Some(v)
        },
    }
}

pub proof fn lemma_first_xdg_value_prefix(lines: Seq<Seq<char>>, k: int)
    requires
        0 <= k <= lines.len(),
        first_xdg_value(lines.take(k)) is Some,
    ensures
        first_xdg_value(lines) == first_xdg_value(lines.take(k)),
    decreases lines.len(),
{
    if k == lines.len() {
        assert(lines.take(k) =~= lines);
    } else {
        assert(lines.drop_last().take(k) =~= lines.take(k));
        lemma_first_xdg_value_prefix(lines.drop_last(), k);
    }
}

/// The first `XDG_DOWNLOAD_DIR=` line of two runs of lines is that of the
/// first run when it has one, else that of the second.
proof fn lemma_first_xdg_value_concat(a: Seq<Seq<char>>, b: Seq<Seq<char>>)
    ensures
        first_xdg_value(a + b) == match first_xdg_value(a) {
            Some(v) => Some(v),
            None => first_xdg_value(b),
        },
    decreases b.len(),
{
    if b.len() == 0 {
        assert(a + b =~= a);
    } else {
        lemma_first_xdg_value_concat(a, b.drop_last());
        assert((a + b).drop_last() =~= a + b.drop_last());
        assert((a + b).last() == b.last());
    }
}

/// Lines whose trimmed text does not start with `XDG_DOWNLOAD_DIR=` (such
/// as `XDG_DESKTOP_DIR=...` or comments) never matter: the Downloads folder
/// read from `user-dirs.dirs` is the same with such a line inserted at the
/// start of any line.
pub proof fn law_other_lines_do_not_matter(before: Seq<char>, line: Seq<char>, after: Seq<char>, home: Seq<char>)
    requires
        before.len() == 0 || before.last() == '\n',
        !line.contains('\n'),
        !starts_with(trim(line), "XDG_DOWNLOAD_DIR="@),
    ensures
        xdg_download_dir(before + line + seq!['\n'] + after, home) == xdg_download_dir(before + after, home),
{
    let nl = seq!['\n'];
    assert(nl.contains('\n')) by {
        assert(nl[0] == '\n');
    }
    assert forall|j: int| 0 <= j < line.len() implies !nl.contains(#[trigger] line[j]) by {
        if nl.contains(line[j]) {
            let k = choose|k: int| 0 <= k < nl.len() && nl[k] == line[j];
            assert(line.contains(line[j]));
        }
    }
    crate::text::lemma_split_by_single(line, nl);
    reveal_strlit("XDG_DOWNLOAD_DIR=");
    assert(xdg_line_value(line) is None);
    assert(first_xdg_value(seq![line]) == xdg_line_value(line)) by {
        assert(seq![line].drop_last() =~= Seq::<Seq<char>>::empty());
        assert(first_xdg_value(Seq::<Seq<char>>::empty()) is None);
        assert(seq![line].last() == line);
        assert(seq![line].len() == 1);
    }
    let rest = split_by(after, nl);
    if before.len() == 0 {
        assert(before + line + nl + after =~= line + nl + after);
        assert(before + after =~= after);
        crate::text::lemma_split_by_concat(line, '\n', after, nl);
        lemma_first_xdg_value_concat(seq![line], rest);
    } else {
        let p = before.drop_last();
        assert(before =~= p + nl);
        assert(before + line + nl + after =~= p + nl + (line + nl + after));
        assert(before + after =~= p + nl + after);
        crate::text::lemma_split_by_concat(p, '\n', line + nl + after, nl);
        crate::text::lemma_split_by_concat(line, '\n', after, nl);
        crate::text::lemma_split_by_concat(p, '\n', after, nl);
        let head = split_by(p, nl);
        assert(head + (seq![line] + rest) =~= (head + seq![line]) + rest);
        lemma_first_xdg_value_concat(head + seq![line], rest);
        lemma_first_xdg_value_concat(head, seq![line]);
        lemma_first_xdg_value_concat(head, rest);
    }
}

/// The first line whose trimmed text starts with `XDG_DOWNLOAD_DIR=`
/// decides: its value, without the key and the surrounding double quotes,
/// is the one read; later lines are ignored.
pub proof fn law_first_download_line_decides(lines: Seq<Seq<char>>, j: int)
    requires
        0 <= j < lines.len(),
        starts_with(trim(lines[j]), "XDG_DOWNLOAD_DIR="@),
        forall|i: int| 0 <= i < j ==> !starts_with(trim(#[trigger] lines[i]), "XDG_DOWNLOAD_DIR="@),
    ensures
        first_xdg_value(lines) == Some(
            trim_char(trim(lines[j]).subrange(17, trim(lines[j]).len() as int), '"'),
        ),
    decreases lines.len(),
{
    reveal_strlit("XDG_DOWNLOAD_DIR=");
    if j < lines.len() - 1 {
        let p = lines.drop_last();
        assert forall|i: int| 0 <= i < j implies !starts_with(trim(#[trigger] p[i]), "XDG_DOWNLOAD_DIR="@) by {
            assert(p[i] == lines[i]);
        }
        law_first_download_line_decides(p, j);
    } else {
        let p = lines.drop_last();
        assert(first_xdg_value(p) is None) by {
            lemma_no_download_line(p);
        }
    }
}

/// Lines none of which start with `XDG_DOWNLOAD_DIR=` give nothing.
proof fn lemma_no_download_line(lines: Seq<Seq<char>>)
    requires
        forall|i: int| 0 <= i < lines.len() ==> !starts_with(trim(#[trigger] lines[i]), "XDG_DOWNLOAD_DIR="@),
    ensures
        first_xdg_value(lines) is None,
    decreases lines.len(),
{
    if lines.len() > 0 {
        let p = lines.drop_last();
        assert forall|i: int| 0 <= i < p.len() implies !starts_with(trim(#[trigger] p[i]), "XDG_DOWNLOAD_DIR="@) by {
            assert(p[i] == lines[i]);
        }
        lemma_no_download_line(p);
        assert(!starts_with(trim(lines[lines.len() - 1]), "XDG_DOWNLOAD_DIR="@));
    }
}

/// Reads `XDG_DOWNLOAD_DIR` from the text of `user-dirs.dirs`.
pub fn parse_xdg_download_dir(contents: &str, home: &str) -> (r: Option<String>)
    ensures
        opt_string_view(r) == xdg_download_dir(contents@, home@),
{
    let mut seps: Vec<char> = Vec::new();
    seps.push('\n');
    assert(seps@ =~= seq!['\n']);
    let lines = split_str(contents, &seps);
    let ghost lv = strings_view(lines@);
    assert(lv == split_by(contents@, seq!['\n']));
    proof {
        reveal_strlit("XDG_DOWNLOAD_DIR=");
        assert("XDG_DOWNLOAD_DIR="@.len() == 17);
        assert(lv.take(0) =~= Seq::<Seq<char>>::empty());
    }
    let mut i: usize = 0;
    let mut found: Option<&str> = None;
    while i < lines.len() && found.is_none()
        invariant
            i <= lines@.len(),
            lv == strings_view(lines@),
            found is None ==> first_xdg_value(lv.take(i as int)) is None,
            found matches Some(v) ==> first_xdg_value(lv) == Some(v@),
        decreases lines.len() - i,
    {
        assert(lv[i as int] == lines@[i as int]@);
        assert(lv.take(i + 1).drop_last() =~= lv.take(i as int));
        assert(lv.take(i + 1).last() == lv[i as int]);
        let t = trim_str(lines[i].as_str());
        match strip_prefix_str(t, "XDG_DOWNLOAD_DIR=") {
            Some(rest) => {
                let v = trim_char_str(rest, '"');
                proof {
                    assert(xdg_line_value(lv[i as int]) == Some(v@));
                    assert(first_xdg_value(lv.take(i + 1)) == Some(v@));
                    lemma_first_xdg_value_prefix(lv, i + 1);
                }
                found = Some(v);
            },
            None => {
                assert(xdg_line_value(lv[i as int]) is None);
            },
        }
        i = i + 1;
    }
    let v = match found {
        None => {
            assert(lv.take(lines@.len() as int) =~= lv);
            return None;
        },
        Some(v) => v,
    };
    proof {
        reveal_strlit("$HOME/");
        reveal_strlit("$HOME");
        assert("$HOME/"@.len() == 6);
    }
    if v.unicode_len() == 0 {
        return None;
    }
    match strip_prefix_str(v, "$HOME/") {
        Some(suffix) => Some(join_path_exec(home, suffix)),
        None => if str_eq(v, "$HOME") {
            Some(owned(home))
        } else {
            Some(owned(v))
        },
    }
}

// ---------------------------------------------------------------------------
// Downloads candidates
// ---------------------------------------------------------------------------

/// The localized names of the Downloads folder tried on Windows after
/// `Downloads`.
pub open spec fn localized_download_names() -> Seq<Seq<char>> {
    seq![
        "Descargas"@,
        "T\u{e9}l\u{e9}chargements"@,
        "Scaricati"@,
        "\u{4e0b}\u{8f7d}"@,
    ]
}

/// The Downloads directories to try, in order; the first that is a
/// directory is used. `env_value` is `ORGANIZA_DOWNLOADS` (with `~`
/// expanded against `env_home`), `xdg` the parsed `XDG_DOWNLOAD_DIR`, and
/// `home` the home directory used for detection.
pub open spec fn downloads_candidate_list(
    env_value: Option<Seq<char>>,
    env_home: Seq<char>,
    xdg: Option<Seq<char>>,
    home: Option<Seq<char>>,
    os: HostOs,
) -> Seq<Seq<char>> {
    let p = path_platform(os);
    let from_env = match env_value {
        Some(v) => seq![expand_home_path(v, env_home, p)],
        None => Seq::empty(),
    };
    let from_xdg = if os == HostOs::Linux && home is Some && xdg is Some {
        seq![xdg->0]
    } else {
        Seq::empty()
    };
    let from_mac = if os == HostOs::MacOs && home is Some {
        seq![join_native(home->0, "Downloads"@, p)]
    } else {
        Seq::empty()
    };
    let from_windows = if os == HostOs::Windows && home is Some {
        seq![join_native(home->0, "Downloads"@, p)] + localized_download_names().map_values(
            |n: Seq<char>| join_native(home->0, n, p),
        )
    } else {
        Seq::empty()
    };
    from_env + from_xdg + from_mac + from_windows
}

/// The order in which Downloads folders are tried: `ORGANIZA_DOWNLOADS`
/// (with `~` expanded) first; then, on Linux, the parsed
/// `XDG_DOWNLOAD_DIR`; on macOS `<home>/Downloads`; on Windows
/// `<home>\Downloads` and then the Spanish, French, Italian and Chinese
/// names; nothing else, and nothing from the home directory when it is
/// unknown.
pub proof fn law_downloads_order(
    env_value: Option<Seq<char>>,
    env_home: Seq<char>,
    xdg: Option<Seq<char>>,
    h: Seq<char>,
    os: HostOs,
)
    ensures
        env_value matches Some(v) ==> downloads_candidate_list(env_value, env_home, xdg, Some(h), os)[0]
            == expand_home_path(v, env_home, path_platform(os)) && downloads_candidate_list(
            env_value,
            env_home,
            xdg,
            Some(h),
            os,
        ) == seq![expand_home_path(v, env_home, path_platform(os))] + downloads_candidate_list(
            None,
            env_home,
            xdg,
            Some(h),
            os,
        ),
        downloads_candidate_list(None, env_home, xdg, Some(h), HostOs::Windows) == seq![
            join_native(h, "Downloads"@, Platform::Windows),
            join_native(h, "Descargas"@, Platform::Windows),
            join_native(h, "T\u{e9}l\u{e9}chargements"@, Platform::Windows),
            join_native(h, "Scaricati"@, Platform::Windows),
            join_native(h, "\u{4e0b}\u{8f7d}"@, Platform::Windows),
        ],
        downloads_candidate_list(None, env_home, xdg, Some(h), HostOs::MacOs) == seq![
            join_native(h, "Downloads"@, Platform::Posix),
        ],
        downloads_candidate_list(None, env_home, xdg, Some(h), HostOs::Linux) == match xdg {
            Some(x) => seq![x],
            None => Seq::<Seq<char>>::empty(),
        },
        downloads_candidate_list(None, env_home, xdg, Some(h), HostOs::Other).len() == 0,
        downloads_candidate_list(None, env_home, xdg, None, os).len() == 0,
{
    let names = localized_download_names();
    assert(names.map_values(|n: Seq<char>| join_native(h, n, Platform::Windows)) =~= seq![
        join_native(h, "Descargas"@, Platform::Windows),
        join_native(h, "T\u{e9}l\u{e9}chargements"@, Platform::Windows),
        join_native(h, "Scaricati"@, Platform::Windows),
        join_native(h, "\u{4e0b}\u{8f7d}"@, Platform::Windows),
    ]);
    assert(downloads_candidate_list(None, env_home, xdg, Some(h), HostOs::Windows) =~= seq![
        join_native(h, "Downloads"@, Platform::Windows),
        join_native(h, "Descargas"@, Platform::Windows),
        join_native(h, "T\u{e9}l\u{e9}chargements"@, Platform::Windows),
        join_native(h, "Scaricati"@, Platform::Windows),
        join_native(h, "\u{4e0b}\u{8f7d}"@, Platform::Windows),
    ]);
    assert(downloads_candidate_list(None, env_home, xdg, Some(h), HostOs::MacOs) =~= seq![
        join_native(h, "Downloads"@, Platform::Posix),
    ]);
    assert(downloads_candidate_list(None, env_home, xdg, Some(h), HostOs::Linux) =~= match xdg {
        Some(x) => seq![x],
        None => Seq::<Seq<char>>::empty(),
    });
    assert(downloads_candidate_list(None, env_home, xdg, None, os) =~= Seq::<Seq<char>>::empty());
    if let Some(v) = env_value {
        assert(downloads_candidate_list(env_value, env_home, xdg, Some(h), os) =~= seq![
            expand_home_path(v, env_home, path_platform(os)),
        ] + downloads_candidate_list(None, env_home, xdg, Some(h), os));
    }
}

/// The Downloads directory candidates, in the order they are tried.
pub fn downloads_candidates(
    env_value: Option<String>,
    env_home: &str,
    xdg: Option<String>,
    home: Option<String>,
    os: HostOs,
) -> (r: Vec<String>)
    ensures
        strings_view(r@) == downloads_candidate_list(
            opt_string_view(env_value),
            env_home@,
            opt_string_view(xdg),
            opt_string_view(home),
            os,
        ),
{
    let mut out: Vec<String> = Vec::new();
    let ghost ev = opt_string_view(env_value);
    let ghost xv = opt_string_view(xdg);
    let ghost hv = opt_string_view(home);
    let p = platform_for_os(os);
    if let Some(v) = env_value {
        out.push(expand_home(v.as_str(), env_home, p));
    }
    assert(strings_view(out@) =~= match ev {
        Some(v) => seq![expand_home_path(v, env_home@, p)],
        None => Seq::<Seq<char>>::empty(),
    });
    if let Some(h) = &home {
        match os {
            HostOs::Linux => {
                if let Some(x) = xdg {
                    out.push(x);
                }
            },
            HostOs::MacOs => {
                out.push(join_native_exec(h.as_str(), "Downloads", p));
            },
            HostOs::Windows => {
                out.push(join_native_exec(h.as_str(), "Downloads", p));
                out.push(join_native_exec(h.as_str(), "Descargas", p));
                out.push(join_native_exec(h.as_str(), "T\u{e9}l\u{e9}chargements", p));
                out.push(join_native_exec(h.as_str(), "Scaricati", p));
                out.push(join_native_exec(h.as_str(), "\u{4e0b}\u{8f7d}", p));
                proof {
                    let names = localized_download_names();
                    assert(names.map_values(|n: Seq<char>| join_native(hv->0, n, p)) =~= seq![
                        join_native(hv->0, "Descargas"@, p),
                        join_native(hv->0, "T\u{e9}l\u{e9}chargements"@, p),
                        join_native(hv->0, "Scaricati"@, p),
                        join_native(hv->0, "\u{4e0b}\u{8f7d}"@, p),
                    ]);
                }
            },
            HostOs::Other => {},
        }
    }
    assert(strings_view(out@) =~= downloads_candidate_list(ev, env_home@, xv, hv, os));
    out
}

} // verus!
