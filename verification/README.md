# diecast

A library for building static site generators, with its behaviour stated
in contracts and proved with Verus.

A site is a set of rules. Each rule has a name, a handler, and the names of
the rules it depends on. Building the site runs every rule's handler once,
on a bind of items of its own, after the handlers of the rules it depends on
have finished; the bind is given the finished binds of those rules.
Handlers select input files by pattern, split off their front matter,
render Markdown, route them to output paths, sort them, paginate the
items of other binds, and so on.

## Layout

- `src/` — the verified library:
  - `dependency` — the dependency graph and its topological orders;
  - `job` — the scheduler that releases binds once their dependencies are
    finished;
  - `site`, `rule`, `bind`, `item` — sites, rules, binds and items;
  - `handle`, `handlers`, `route`, `pagination` — handlers, routers and
    pagination;
  - `pattern` — patterns over paths (literals, sets, globs, regular
    expressions, and their combinations);
  - `markup` — front matter split off an item's body and parsed as TOML,
    and Markdown rendered to HTML (with `toml` and `hoedown`);
  - `configuration`, `command`, `support`, `path`, `deploy` — settings,
    the command line's usage text and command choice, slugs, paths.
- `tests/` — tests of the library.
- `app/` — the parts that touch the file system, the command line and the
  network: reading `Diecast.toml`, walking the input directory, cleaning the
  output directory, reading and writing files, and the `build`, `clean` and
  `live` commands.

`app/` reads `Diecast.toml` with `serde` and `toml` into the library's
`Settings`; `serde`'s derive takes the place of the decoding traits of
`rustc_serialize` for reading that file and the command line.
