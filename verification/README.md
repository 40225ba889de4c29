# floresline_launcher

Core of a Pop!_OS-style application launcher for GNOME, verified with Verus.

`src/` is the library. Its functions are proved against their contracts, except the
few trusted wrappers around outside calls (below), whose contracts are believed
without proof:

- `text` — character-level string helpers (trimming, searching, lines, UTF-8 widths)
  and the lowercasing wrapper.
- `calc` — `=` / `＝` calculator queries: expression extraction, the formatting of
  meval's values (decided exactly on the IEEE-754 bits), the calculator row, and the
  interpretation of `gnome-calculator -s` output.
- `query` — what a query shows (calculator row, web-search row, custom commands and
  ranked applications), what activating a row does, selection movement and Alt+digit.
- `desktop` — `.desktop` parsing, `Exec` field-code stripping, directory list,
  deduplication and ordering of the scanned entries.
- `fuzzy` / `sorting` — scoring, the recents bonus in the ranking, and the stable
  descending sort.
- `recents` — launch history and its bonus. The history is a `Vec` of `(id, entry)`
  pairs with the invariant that no id occurs twice, viewed as a `Map`: vstd specifies
  `HashMap` only for key types that obey its key model (integers, `bool`), not for
  `String` ids.
- `extras`, `config`, `launch` — custom commands, settings, launch plans.

Calls into `meval`, `shlex`, `urlencoding`, `str::to_lowercase`, `String::push` and the
system clock go through small trusted items whose contracts are documented next to
them and are not proved. meval's answer is only trusted to pair a double with its own
`Display` text: the library evaluates an expression once and hands that answer to the
functions that build rows. The laws of the library are public proof functions whose
names start with `law_`.

`app/` is the GTK4 front end: windows and keys, reading files and the environment,
running processes, and the serde copies of the library's types.
