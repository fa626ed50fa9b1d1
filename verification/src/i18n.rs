//! Interface language: the supported languages, the system locale read
//! from `LANG`/`LC_ALL`/`LANGUAGE`, the precedence between them, and the
//! `language` field of a configuration file.

use vstd::prelude::*;

use crate::text::{owned, str_eq, take_until, take_until_str};

verus! {

/// `en` or `es`.
pub open spec fn is_supported(lang: Seq<char>) -> bool {
    lang == "en"@ || lang == "es"@
}

/// True for the two supported interface languages.
pub fn is_supported_language(lang: &str) -> (r: bool)
    ensures
        r == is_supported(lang@),
{
    str_eq(lang, "en") || str_eq(lang, "es")
}

/// The language code of a locale value: the text before the first `:`
/// (`en:es:fr`), then before `_` (`es_ES`), `-` (`es-ES`) and `.` (`.UTF-8`).
pub open spec fn locale_code(value: Seq<char>) -> Seq<char> {
    take_until(take_until(take_until(take_until(value, seq![':']), seq!['_']), seq!['-']), seq!['.'])
}

/// The system language: the first of `LANG`, `LC_ALL`, `LANGUAGE` that is
/// set decides, and only `en` and `es` are recognized.
pub open spec fn system_language(
    lang: Option<Seq<char>>,
    lc_all: Option<Seq<char>>,
    language: Option<Seq<char>>,
) -> Option<Seq<char>> {
    let value = if lang is Some {
        lang
    } else if lc_all is Some {
        lc_all
    } else {
        language
    };
    match value {
        None => None,
        Some(v) => if locale_code(v) == "en"@ {
            Some("en"@)
        } else if locale_code(v) == "es"@ {
            Some("es"@)
        } else {
            None
        },
    }
}

/// The characters of an optional string slice.
pub open spec fn opt_str_view(o: Option<&str>) -> Option<Seq<char>> {
    match o {
        Some(s) => Some(s@),
        None => None,
    }
}

/// The text before the first occurrence of `c`.
fn before_char(s: &str, c: char) -> (r: &str)
    ensures
        r@ == take_until(s@, seq![c]),
{
    let mut stops: Vec<char> = Vec::new();
    stops.push(c);
    assert(stops@ =~= seq![c]);
    take_until_str(s, &stops)
}

/// Detects the interface language from the values of `LANG`, `LC_ALL` and
/// `LANGUAGE` (each `None` when unset).
pub fn detect_system_locale(lang: Option<&str>, lc_all: Option<&str>, language: Option<&str>) -> (r: Option<&'static str>)
    ensures
        opt_str_view(r) == system_language(opt_str_view(lang), opt_str_view(lc_all), opt_str_view(language)),
{
    let value = if lang.is_some() {
        lang
    } else if lc_all.is_some() {
        lc_all
    } else {
        language
    };
    match value {
        None => None,
        Some(v) => {
            let code = before_char(before_char(before_char(before_char(v, ':'), '_'), '-'), '.');
            if str_eq(code, "en") {
                Some("en")
            } else if str_eq(code, "es") {
                Some("es")
            } else {
                None
            }
        },
    }
}

/// The interface language: the CLI flag when supported, else the
/// configured language when supported, else the system language, else `en`.
pub open spec fn chosen_locale(
    cli: Option<Seq<char>>,
    config: Option<Seq<char>>,
    system: Option<Seq<char>>,
) -> Seq<char> {
    if cli is Some && is_supported(cli->0) {
        cli->0
    } else if config is Some && is_supported(config->0) {
        config->0
    } else if system is Some {
        system->0
    } else {
        "en"@
    }
}

/// Picks the interface language by precedence.
pub fn choose_locale(cli_lang: Option<&str>, config_lang: Option<&str>, system: Option<&str>) -> (r: String)
    ensures
        r@ == chosen_locale(opt_str_view(cli_lang), opt_str_view(config_lang), opt_str_view(system)),
{
    if let Some(l) = cli_lang {
        if is_supported_language(l) {
            return owned(l);
        }
    }
    if let Some(l) = config_lang {
        if is_supported_language(l) {
            return owned(l);
        }
    }
    match system {
        Some(l) => owned(l),
        None => owned("en"),
    }
}

/// The string value at a top-level `key` of the TOML document `source`:
/// `None` when the document does not parse, has no such key, or the value
/// there is not a string.
pub uninterp spec fn toml_top_level_string(source: Seq<char>, key: Seq<char>) -> Option<Seq<char>>;

/// Parses `source` as a TOML document with `toml::from_str::<toml::Value>`,
/// looks up `key` with `Value::get`, and keeps the value when it is a
/// `Value::String`. The contract claims only that the result is a function
/// of the document and the key; what TOML accepts is left to the crate.
#[verifier::external_body]
fn toml_string_at(source: &str, key: &str) -> (r: Option<String>)
    ensures
        opt_string_view(r) == toml_top_level_string(source@, key@),
{
    match toml::from_str::<toml::Value>(source) {
        Ok(value) => match value.get(key) {
            Some(toml::Value::String(s)) => Some(s.clone()),
            _ => None,
        },
        Err(_) => None,
    }
}

/// The characters of an optional string.
pub open spec fn opt_string_view(o: Option<String>) -> Option<Seq<char>> {
    match o {
        Some(s) => Some(s@),
        None => None,
    }
}

/// The `language` field of a configuration file's text, without validating
/// the rest of it, so that a configured language survives even when other
/// fields are invalid.
pub fn preflight_config_language(source: &str) -> (r: Option<String>)
    ensures
        opt_string_view(r) == toml_top_level_string(source@, "language"@),
{
    toml_string_at(source, "language")
}


/// The precedence of the interface language: a supported CLI language
/// (`en` or `es`) wins; otherwise a supported configured language wins,
/// whatever the system language is; otherwise the system language; and
/// `en` when there is none.
pub proof fn law_locale_precedence(
    cli: Option<Seq<char>>,
    config: Option<Seq<char>>,
    system: Option<Seq<char>>,
    other_system: Option<Seq<char>>,
)
    ensures
        cli is Some && (cli->0 == "en"@ || cli->0 == "es"@) ==> chosen_locale(cli, config, system)
            == cli->0,
        !(cli is Some && (cli->0 == "en"@ || cli->0 == "es"@)) && config is Some && (config->0
            == "en"@ || config->0 == "es"@) ==> chosen_locale(cli, config, system) == config->0
            && chosen_locale(cli, config, system) == chosen_locale(cli, config, other_system),
        !(cli is Some && (cli->0 == "en"@ || cli->0 == "es"@)) && !(config is Some && (config->0
            == "en"@ || config->0 == "es"@)) ==> chosen_locale(cli, config, system) == match system {
            Some(s) => s,
            None => "en"@,
        },
{
}

/// The system language: the first of `LANG`, `LC_ALL`, `LANGUAGE` that is
/// set decides, even when its language is not recognized; a value whose
/// language code is `en` or `es` (before any `_`, `-`, `.` or `:`) gives that
/// code.
pub proof fn law_first_set_locale_variable_decides(
    lang: Option<Seq<char>>,
    lc_all: Option<Seq<char>>,
    language: Option<Seq<char>>,
    other: Option<Seq<char>>,
)
    ensures
        lang is Some ==> system_language(lang, lc_all, language) == system_language(lang, other, other),
        lang is None && lc_all is Some ==> system_language(lang, lc_all, language) == system_language(
            lc_all,
            None,
            other,
        ),
        lang is None && lc_all is None ==> system_language(lang, lc_all, language) == system_language(
            language,
            None,
            None,
        ),
        system_language(None, None, None) is None,
        system_language(lang, lc_all, language) matches Some(code) ==> code == "en"@ || code == "es"@,
{
}

/// The interface language is always a supported one: an unsupported CLI or
/// configured value falls through, and the system language is `en`, `es`
/// or absent.
pub proof fn law_chosen_locale_is_supported(
    cli: Option<Seq<char>>,
    config: Option<Seq<char>>,
    lang: Option<Seq<char>>,
    lc_all: Option<Seq<char>>,
    language: Option<Seq<char>>,
)
    ensures
        is_supported(chosen_locale(cli, config, system_language(lang, lc_all, language))),
{
}

/// One stage of cutting a locale value: when `p` is the two-letter `code`,
/// or starts with `code` and then `sep`, cutting at `c` keeps that shape,
/// and gives `code` itself when `c` is `sep`.
proof fn lemma_cut_stage(p: Seq<char>, c: char, code: Seq<char>, sep: char)
    requires
        code.len() == 2,
        'a' <= code[0] <= 'z',
        'a' <= code[1] <= 'z',
        !('a' <= c <= 'z'),
        p == code || (p.len() >= 3 && p.take(2) == code && p[2] == sep),
    ensures
        take_until(p, seq![c]) == code || (take_until(p, seq![c]).len() >= 3 && take_until(
            p,
            seq![c],
        ).take(2) == code && take_until(p, seq![c])[2] == sep),
        (p == code || c == sep) ==> take_until(p, seq![c]) == code,
{
    let stops = seq![c];
    crate::text::lemma_first_index_in_bounds(p, stops);
    let f = crate::text::first_index_in(p, stops);
    assert(stops.contains(c)) by {
        assert(stops[0] == c);
    }
    assert forall|x: char| stops.contains(x) implies x == c by {
        let k = choose|k: int| 0 <= k < stops.len() && stops[k] == x;
    }
    assert(p[0] == code[0] && p[1] == code[1]) by {
        if p != code {
            assert(p.take(2)[0] == p[0] && p.take(2)[1] == p[1]);
        }
    }
    assert(f >= 2) by {
        if f < 2 && f < p.len() {
            assert(stops.contains(p[f]));
        }
    }
    if p == code {
        assert(f == 2);
        assert(p.subrange(0, 2) =~= code);
    } else if c == sep {
        assert(f == 2) by {
            if f > 2 {
                assert(!stops.contains(p[2]));
            }
        }
        assert(p.subrange(0, 2) =~= p.take(2));
    } else {
        assert(f >= 3) by {
            if f == 2 {
                assert(stops.contains(p[2]));
            }
        }
        let r = p.subrange(0, f);
        assert(r.take(2) =~= p.take(2));
        assert(r[2] == p[2]);
    }
}

/// A locale value gives its language when it is `en` or `es`, alone or
/// followed by a territory, script, encoding or priority list
/// (`es_ES.UTF-8`, `en-US`, `es:en`, `en.UTF-8`), whatever follows.
pub proof fn law_locale_value_gives_its_language(code: Seq<char>, sep: char, rest: Seq<char>)
    requires
        code == "en"@ || code == "es"@,
        sep == ':' || sep == '_' || sep == '-' || sep == '.',
    ensures
        locale_code(code) == code,
        locale_code(code + seq![sep] + rest) == code,
        system_language(Some(code + seq![sep] + rest), None, None) == Some(code),
        system_language(Some(code), None, None) == Some(code),
{
    reveal_strlit("en");
    reveal_strlit("es");
    assert(code.len() == 2 && 'a' <= code[0] <= 'z' && 'a' <= code[1] <= 'z');
    let v = code + seq![sep] + rest;
    assert(v.take(2) =~= code);
    assert(v[2] == sep);
    lemma_cut_stage(code, ':', code, sep);
    lemma_cut_stage(code, '_', code, sep);
    lemma_cut_stage(code, '-', code, sep);
    lemma_cut_stage(code, '.', code, sep);
    let a = take_until(v, seq![':']);
    lemma_cut_stage(v, ':', code, sep);
    let b = take_until(a, seq!['_']);
    lemma_cut_stage(a, '_', code, sep);
    let c = take_until(b, seq!['-']);
    lemma_cut_stage(b, '-', code, sep);
    lemma_cut_stage(c, '.', code, sep);
}

} // verus!
