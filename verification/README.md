# organiza

Sorts the files of a folder (usually Downloads) into category folders by
extension: `Text`, `Image`, `Video`, `Audio`, `Executable`, `Compressed`,
and `Other` for everything else. Users extend or replace the built-in table
with `[[categories]]` rules and override single extensions with
`[extensions]`.

## Layout

- `src/` — the library, verified with Verus. It holds the rules and the
  decisions:
  - `categories.rs`: the built-in table, resolution of `[[categories]]` and
    `[extensions]`, classification, generated category names, category name
    safety and rule validation;
  - `category_map.rs`: the extension-to-category map;
  - `config.rs`: the configuration, its validation, `~` expansion and source
    precedence;
  - `planning.rs`: what a run scans, which top-level directories move, how a
    conflict is settled, rename candidates, what a dry run does and when a
    run fails;
  - `locations.rs`: configuration, lock and Downloads locations, and the
    `XDG_DOWNLOAD_DIR` parser;
  - `i18n.rs`: interface language selection;
  - `paths.rs`, `text.rs`: path components, joins with POSIX or Windows
    separators, and string helpers.
- `app/` — the `organiza` command: CLI, environment and file-system access,
  TOML reading, the lock and the log. It asks the library for every decision.
- `tests/` — tests of the library.

Paths are handled by the library as text: components and comparisons on
POSIX separators (Windows text has its `\` turned into `/` first), and
joins with the separators of the platform. The application hands it the
text of each path.
