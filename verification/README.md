# eco

A tool for reasoning about breaking changes in Rust ecosystems, verified with
Verus.

Eco reads custom JSON formats about an ecosystem of Rust libraries:

- extract info: for each library, the url of its Cargo.toml (and a version to
  ignore);
- dependency info: for each package, its version, dependencies and dev
  dependencies;

and from the Cargo.toml files of the libraries it writes dependency info, from
which it writes update info: for each package the order in which it is updated
(its depth, so that dependencies come first), its bump to its new version, and
the bumps of its dependencies. A Cargo.toml that cannot be read is reported with
the line and column where reading stopped.

## Layout

- `src/` is the verified library. Texts are read into a flat stream of meta
  data (`meta`: start and end of nodes and named properties), which the
  conversion functions turn into data.
  - `reader`: the extract info and dependency info readers;
  - `cargo_toml`: the Cargo.toml reader;
  - `dependencies`: packages, their conversion from meta data and the writer of
    dependency info;
  - `extract`: libraries of extract info, and dependency info from fetched
    Cargo.toml files;
  - `update`: depths, dependency cycles, new versions and update info;
  - `todo`: a todo list of the libraries;
  - `roundtrip`: the proof that written dependency info reads back as the
    same packages;
  - `text`: characters, strings and JSON strings.
- `app/` fetches Cargo.toml files over HTTP, each on a thread, and checks what
  the library functions require before calling them.
- `tests/` runs the library on concrete documents.
