//! Reading a Cargo.toml into meta data: the package node with its name, its
//! version, its dependencies and its dev dependencies.
//!
//! The reader knows enough of TOML to read a Cargo.toml: comments, blank lines,
//! table headers (`[package]`, `[dependencies]`, `[dev-dependencies]`,
//! `[dependencies.name]`, `[dev-dependencies.name]`; other tables are skipped),
//! and lines `key = value`, where a key is bare or quoted and a value is a
//! string (basic, literal or multi-line), an array, an inline table or another
//! single token (a number, a boolean, a date). A dependency is kept where it
//! has a version: `name = "1.0"`, `name = { version = "1.0", .. }` or a table
//! `[dependencies.name]` with `version = "1.0"`.
use crate::dependencies::{
    dependencies_meta, dependency_meta, dependency_node, deps_view, dev_dependency_node,
    ignore_version_key, lemma_package_loop_dependencies, name_key, package_loop, package_node,
    package_outcome, version_key, Dependency, DependencyView, PackageFields, PackageView,
};
use crate::meta::{failed, lemma_split, meta_view, succeeded, MetaData, MetaView, Outcome, Range};
use crate::reader::{read_string_body, shared, string_body};
use crate::text::{arc_clone, chars_of, push_char, str_eq};
use std::sync::Arc;
use vstd::prelude::*;

verus! {

/// Blank characters within a line.
pub open spec fn is_blank(c: char) -> bool {
    c == ' ' || c == '\t' || c == '\r'
}

/// The first position from `i` on that is not blank.
pub open spec fn skip_blank(t: Seq<char>, i: int) -> int
    decreases t.len() - i,
{
    if 0 <= i < t.len() && is_blank(t[i]) {
        skip_blank(t, i + 1)
    } else {
        i
    }
}

/// The position after the end of the line at `i` (after its newline, or the
/// end of the text).
pub open spec fn line_end(t: Seq<char>, i: int) -> int
    decreases t.len() - i,
{
    if i < 0 || i >= t.len() {
        t.len() as int
    } else if t[i] == '\n' {
        i + 1
    } else {
        line_end(t, i + 1)
    }
}

/// The first position from `i` on that is not blank, a newline or in a comment;
/// `comment` tells whether `i` stands inside a comment.
pub open spec fn skip_space_from(t: Seq<char>, i: int, comment: bool) -> int
    decreases t.len() - i,
{
    if i < 0 || i >= t.len() {
        i
    } else if comment {
        skip_space_from(t, i + 1, t[i] != '\n')
    } else if is_blank(t[i]) || t[i] == '\n' {
        skip_space_from(t, i + 1, false)
    } else if t[i] == '#' {
        skip_space_from(t, i + 1, true)
    } else {
        i
    }
}

/// The first position from `i` on that is not blank, a newline or in a comment.
pub open spec fn skip_space(t: Seq<char>, i: int) -> int {
    skip_space_from(t, i, false)
}

/// The end of a line from `i` on, after blanks and an optional comment: the
/// position after the newline (or the end of the text); `None` where something
/// else follows.
pub open spec fn end_of_line(t: Seq<char>, i: int) -> Option<int> {
    let j = skip_blank(t, i);
    if j >= t.len() {
        Some(t.len() as int)
    } else if t[j] == '\n' {
        Some(j + 1)
    } else if t[j] == '#' {
        Some(line_end(t, j + 1))
    } else {
        None
    }
}

/// A character of a bare key.
pub open spec fn is_bare(c: char) -> bool {
    ('a' <= c && c <= 'z') || ('A' <= c && c <= 'Z') || ('0' <= c && c <= '9') || c == '_' || c
        == '-'
}

/// The end of the run of bare key characters from `i` on.
pub open spec fn bare_end(t: Seq<char>, i: int) -> int
    decreases t.len() - i,
{
    if 0 <= i < t.len() && is_bare(t[i]) {
        bare_end(t, i + 1)
    } else {
        i
    }
}

/// The rest of a literal string from `i` on (after its opening quote), up to
/// its closing quote on the same line: its value and the position after it.
pub open spec fn literal_body(t: Seq<char>, i: int) -> Option<(Seq<char>, int)>
    decreases t.len() - i,
{
    if i < 0 || i >= t.len() || t[i] == '\n' {
        None
    } else if t[i] == '\'' {
        Some((Seq::empty(), i + 1))
    } else {
        match literal_body(t, i + 1) {
            Some((s, e)) => Some((seq![t[i]] + s, e)),
            None => None,
        }
    }
}

/// Three quotes `q` at `i`.
pub open spec fn triple_at(t: Seq<char>, i: int, q: char) -> bool {
    0 <= i && i + 3 <= t.len() && t[i] == q && t[i + 1] == q && t[i + 2] == q
}

/// The position after the first three quotes `q` from `i` on.
pub open spec fn multiline_end(t: Seq<char>, i: int, q: char) -> Option<int>
    decreases t.len() - i,
{
    if i < 0 || i >= t.len() {
        None
    } else if triple_at(t, i, q) {
        Some(i + 3)
    } else {
        multiline_end(t, i + 1, q)
    }
}

/// A key at `i`: bare or quoted.
pub open spec fn toml_key(t: Seq<char>, i: int) -> Option<(Seq<char>, int)> {
    if 0 <= i < t.len() && t[i] == '"' {
        string_body(t, i + 1)
    } else if 0 <= i < t.len() && t[i] == '\'' {
        literal_body(t, i + 1)
    } else if bare_end(t, i) > i {
        Some((t.subrange(i, bare_end(t, i)), bare_end(t, i)))
    } else {
        None
    }
}

/// What matters of a value: a string, an inline table (with its `version`,
/// where that is a string), or anything else.
pub enum TomlValue {
    Str(Seq<char>),
    Table(Option<Seq<char>>),
    Other,
}

/// A character of a single token value (a number, a boolean, a date).
pub open spec fn is_token_char(c: char) -> bool {
    !(is_blank(c) || c == '\n' || c == ',' || c == ']' || c == '}' || c == '#' || c == '['
        || c == '{' || c == '"' || c == '\'' || c == '=')
}

/// The end of the run of token characters from `i` on.
pub open spec fn token_end(t: Seq<char>, i: int) -> int
    decreases t.len() - i,
{
    if 0 <= i < t.len() && is_token_char(t[i]) {
        token_end(t, i + 1)
    } else {
        i
    }
}

/// A value at `i`.
pub open spec fn toml_value(t: Seq<char>, i: int) -> Option<(TomlValue, int)>
    decreases t.len() - i, 1int,
{
    if i < 0 || i >= t.len() {
        None
    } else if triple_at(t, i, '"') {
        match multiline_end(t, i + 3, '"') {
            Some(e) => Some((TomlValue::Other, e)),
            None => None,
        }
    } else if t[i] == '"' {
        match string_body(t, i + 1) {
            Some((s, e)) => Some((TomlValue::Str(s), e)),
            None => None,
        }
    } else if triple_at(t, i, '\'') {
        match multiline_end(t, i + 3, '\'') {
            Some(e) => Some((TomlValue::Other, e)),
            None => None,
        }
    } else if t[i] == '\'' {
        match literal_body(t, i + 1) {
            Some((s, e)) => Some((TomlValue::Str(s), e)),
            None => None,
        }
    } else if t[i] == '[' {
        match array_items(t, i + 1) {
            Some(e) => Some((TomlValue::Other, e)),
            None => None,
        }
    } else if t[i] == '{' {
        match table_items(t, i + 1, None) {
            Some((v, e)) => Some((TomlValue::Table(v), e)),
            None => None,
        }
    } else if token_end(t, i) > i {
        Some((TomlValue::Other, token_end(t, i)))
    } else {
        None
    }
}

/// The items of an array from `i` on (after `[`), up to and with the closing
/// `]`; newlines and comments may stand between them, and a comma after the
/// last one. (A position that would not move on is refused.)
pub open spec fn array_items(t: Seq<char>, i: int) -> Option<int>
    decreases t.len() - i, 2int,
{
    let j = skip_space(t, i);
    if i < 0 || j < i || j >= t.len() {
        None
    } else if t[j] == ']' {
        Some(j + 1)
    } else {
        match toml_value(t, j) {
            None => None,
            Some((_, a)) => {
                let b = skip_space(t, a);
                if b < i || b >= t.len() {
                    None
                } else if t[b] == ',' {
                    array_items(t, b + 1)
                } else if t[b] == ']' {
                    Some(b + 1)
                } else {
                    None
                }
            },
        }
    }
}

/// The version that an item `k = val` of an inline table gives, where `v` was
/// given before.
pub open spec fn table_version(v: Option<Seq<char>>, k: Seq<char>, val: TomlValue) -> Option<
    Seq<char>,
> {
    if k == version_key() {
        match val {
            TomlValue::Str(s) => Some(s),
            _ => v,
        }
    } else {
        v
    }
}

/// The items of an inline table from `i` on (after `{`), up to and with the
/// closing `}`: the last string value of its key `version` (after `v`), and the
/// position after the table. (A position that would not move on is refused.)
pub open spec fn table_items(t: Seq<char>, i: int, v: Option<Seq<char>>) -> Option<
    (Option<Seq<char>>, int),
>
    decreases t.len() - i, 2int,
{
    let j = skip_blank(t, i);
    if i < 0 || j < i || j >= t.len() {
        None
    } else if t[j] == '}' {
        Some((v, j + 1))
    } else {
        match toml_key(t, j) {
            None => None,
            Some((k, a)) => {
                let b = skip_blank(t, a);
                if b < i || b >= t.len() || t[b] != '=' {
                    None
                } else {
                    let c = skip_blank(t, b + 1);
                    if c < i || c >= t.len() {
                        None
                    } else {
                        match toml_value(t, c) {
                            None => None,
                            Some((val, d)) => {
                                let e = skip_blank(t, d);
                                if e < i || e >= t.len() {
                                    None
                                } else if t[e] == ',' {
                                    table_items(t, e + 1, table_version(v, k, val))
                                } else if t[e] == '}' {
                                    Some((table_version(v, k, val), e + 1))
                                } else {
                                    None
                                }
                            },
                        }
                    }
                }
            },
        }
    }
}

/// A dotted key from `i` on: its parts, and the position after it and the
/// blanks that follow. (A position that would not move on is refused.)
pub open spec fn key_path(t: Seq<char>, i: int) -> Option<(Seq<Seq<char>>, int)>
    decreases t.len() - i,
{
    match toml_key(t, i) {
        None => None,
        Some((k, a)) => {
            let b = skip_blank(t, a);
            if 0 <= b < t.len() && t[b] == '.' {
                let c = skip_blank(t, b + 1);
                if c <= i || c > t.len() {
                    None
                } else {
                    match key_path(t, c) {
                        Some((ks, e)) => Some((seq![k] + ks, e)),
                        None => None,
                    }
                }
            } else {
                Some((seq![k], b))
            }
        },
    }
}

/// The table that holds the package.
pub open spec fn package_table() -> Seq<char> {
    seq!['p', 'a', 'c', 'k', 'a', 'g', 'e']
}

/// The table that holds the dependencies.
pub open spec fn dependencies_table() -> Seq<char> {
    seq!['d', 'e', 'p', 'e', 'n', 'd', 'e', 'n', 'c', 'i', 'e', 's']
}

/// The table that holds the dev dependencies.
pub open spec fn dev_dependencies_table() -> Seq<char> {
    seq!['d', 'e', 'v', '-', 'd', 'e', 'p', 'e', 'n', 'd', 'e', 'n', 'c', 'i', 'e', 's']
}

/// The part of a Cargo.toml that the lines under a header belong to.
pub enum SectionView {
    /// `[package]`.
    Package,
    /// `[dependencies]`, or `[dev-dependencies]` where the flag is set.
    Dependencies(bool),
    /// `[dependencies.name]`, or `[dev-dependencies.name]` where the flag is
    /// set.
    DependencyTable(bool, Seq<char>),
    /// Any other table.
    Other,
}

/// The section of a table header with the dotted key `ks`.
pub open spec fn section_of(ks: Seq<Seq<char>>) -> SectionView {
    if ks == seq![package_table()] {
        SectionView::Package
    } else if ks == seq![dependencies_table()] {
        SectionView::Dependencies(false)
    } else if ks == seq![dev_dependencies_table()] {
        SectionView::Dependencies(true)
    } else if ks.len() == 2 && ks[0] == dependencies_table() {
        SectionView::DependencyTable(false, ks[1])
    } else if ks.len() == 2 && ks[0] == dev_dependencies_table() {
        SectionView::DependencyTable(true, ks[1])
    } else {
        SectionView::Other
    }
}

/// A table header at `i` (where `[` stands): its section and the position
/// after it. An array of tables `[[..]]` is another section.
pub open spec fn header(t: Seq<char>, i: int) -> Option<(SectionView, int)> {
    if 0 <= i && i + 1 < t.len() && t[i + 1] == '[' {
        match key_path(t, skip_blank(t, i + 2)) {
            Some((_, a)) => if 0 <= a && a + 1 < t.len() && t[a] == ']' && t[a + 1] == ']' {
                Some((SectionView::Other, a + 2))
            } else {
                None
            },
            None => None,
        }
    } else {
        match key_path(t, skip_blank(t, i + 1)) {
            Some((ks, a)) => if 0 <= a < t.len() && t[a] == ']' {
                Some((section_of(ks), a + 1))
            } else {
                None
            },
            None => None,
        }
    }
}

/// What has been read of a Cargo.toml: the section of the current line, the
/// package's name and version, its dependencies and dev dependencies, and the
/// version given in the current dependency table.
pub struct CargoState {
    pub section: SectionView,
    pub name: Option<Seq<char>>,
    pub version: Option<Seq<char>>,
    pub dependencies: Seq<DependencyView>,
    pub dev_dependencies: Seq<DependencyView>,
    pub table_version: Option<Seq<char>>,
}

/// Nothing read yet.
pub open spec fn initial_state() -> CargoState {
    CargoState {
        section: SectionView::Other,
        name: None,
        version: None,
        dependencies: Seq::empty(),
        dev_dependencies: Seq::empty(),
        table_version: None,
    }
}

/// The dependency called `name` with the version `version`.
pub open spec fn cargo_dependency(name: Seq<char>, version: Seq<char>) -> DependencyView {
    DependencyView { name, version, ignore_version: None }
}

/// `st` with one more dependency (or dev dependency, where `dev` is set).
pub open spec fn with_dependency(st: CargoState, dev: bool, d: DependencyView) -> CargoState {
    CargoState {
        section: st.section,
        name: st.name,
        version: st.version,
        dependencies: if dev {
            st.dependencies
        } else {
            st.dependencies.push(d)
        },
        dev_dependencies: if dev {
            st.dev_dependencies.push(d)
        } else {
            st.dev_dependencies
        },
        table_version: st.table_version,
    }
}

/// The end of the current section: a dependency table with a version adds its
/// dependency.
pub open spec fn close_section(st: CargoState) -> CargoState {
    match st.section {
        SectionView::DependencyTable(dev, n) => match st.table_version {
            Some(v) => with_dependency(st, dev, cargo_dependency(n, v)),
            None => st,
        },
        _ => st,
    }
}

/// The start of a section.
pub open spec fn enter_section(st: CargoState, sec: SectionView) -> CargoState {
    CargoState {
        section: sec,
        name: st.name,
        version: st.version,
        dependencies: st.dependencies,
        dev_dependencies: st.dev_dependencies,
        table_version: None,
    }
}

/// A line `ks = v` in the current section. Under `[package]`, a string `name`
/// or `version` is kept; under the dependency tables, a dependency given by a
/// version string or by an inline table with a version; in a table of one
/// dependency, its string `version`. Anything else changes nothing.
pub open spec fn assign(st: CargoState, ks: Seq<Seq<char>>, v: TomlValue) -> CargoState {
    match st.section {
        SectionView::Package => match v {
            TomlValue::Str(s) => if ks == seq![name_key()] {
                CargoState {
                    section: st.section,
                    name: Some(s),
                    version: st.version,
                    dependencies: st.dependencies,
                    dev_dependencies: st.dev_dependencies,
                    table_version: st.table_version,
                }
            } else if ks == seq![version_key()] {
                CargoState {
                    section: st.section,
                    name: st.name,
                    version: Some(s),
                    dependencies: st.dependencies,
                    dev_dependencies: st.dev_dependencies,
                    table_version: st.table_version,
                }
            } else {
                st
            },
            _ => st,
        },
        SectionView::Dependencies(dev) => if ks.len() == 1 {
            match v {
                TomlValue::Str(s) => with_dependency(st, dev, cargo_dependency(ks[0], s)),
                TomlValue::Table(Some(s)) => with_dependency(st, dev, cargo_dependency(ks[0], s)),
                _ => st,
            }
        } else {
            st
        },
        SectionView::DependencyTable(_, _) => match v {
            TomlValue::Str(s) => if ks == seq![version_key()] {
                CargoState {
                    section: st.section,
                    name: st.name,
                    version: st.version,
                    dependencies: st.dependencies,
                    dev_dependencies: st.dev_dependencies,
                    table_version: Some(s),
                }
            } else {
                st
            },
            _ => st,
        },
        SectionView::Other => st,
    }
}

/// Reads the lines of a Cargo.toml from `i` on, after what `st` holds: blank
/// lines and comments, table headers and lines `key = value`, each followed by
/// the end of its line. Where a line cannot be read, the position where it
/// starts. (A position that would not move on is refused.)
pub open spec fn lines(t: Seq<char>, i: int, st: CargoState) -> Result<CargoState, int>
    decreases t.len() - i,
{
    let j = skip_space(t, i);
    if i < 0 || j < i || j > t.len() {
        Err(i)
    } else if j == t.len() {
        Ok(close_section(st))
    } else if t[j] == '[' {
        match header(t, j) {
            None => Err(j),
            Some((sec, a)) => match end_of_line(t, a) {
                None => Err(j),
                Some(e) => if e <= i || e > t.len() {
                    Err(j)
                } else {
                    lines(t, e, enter_section(close_section(st), sec))
                },
            },
        }
    } else {
        match key_path(t, j) {
            None => Err(j),
            Some((ks, a)) => if a < 0 || a >= t.len() || t[a] != '=' {
                Err(j)
            } else {
                match toml_value(t, skip_blank(t, a + 1)) {
                    None => Err(j),
                    Some((v, d)) => match end_of_line(t, d) {
                        None => Err(j),
                        Some(e) => if e <= i || e > t.len() {
                            Err(j)
                        } else {
                            lines(t, e, assign(st, ks, v))
                        },
                    },
                }
            },
        }
    }
}

/// Reading a Cargo.toml: what it holds, or the position of the first line that
/// cannot be read.
pub open spec fn cargo_toml_read(t: Seq<char>) -> Result<CargoState, int> {
    lines(t, 0, initial_state())
}

/// What a Cargo.toml holds, where the text is one.
pub open spec fn cargo_toml(t: Seq<char>) -> Option<CargoState> {
    match cargo_toml_read(t) {
        Ok(st) => Some(st),
        Err(_) => None,
    }
}

/// A string property called `key`, where there is a value.
pub open spec fn opt_string_meta(key: Seq<char>, v: Option<Seq<char>>) -> Seq<MetaView> {
    match v {
        Some(s) => seq![MetaView::String(key, s)],
        None => Seq::empty(),
    }
}

/// The meta data of what was read of a Cargo.toml: a package node with the name,
/// the version, the dependencies and the dev dependencies that were found.
pub open spec fn cargo_meta(st: CargoState) -> Seq<MetaView> {
    seq![MetaView::StartNode(package_node())] + opt_string_meta(name_key(), st.name)
        + opt_string_meta(version_key(), st.version) + dependencies_meta(
        dependency_node(),
        st.dependencies,
    ) + dependencies_meta(dev_dependency_node(), st.dev_dependencies) + seq![
        MetaView::EndNode(package_node()),
    ]
}

/// The dependencies (or, where `dev` is set, the dev dependencies) of `st`.
pub open spec fn dependencies_of(st: CargoState, dev: bool) -> Seq<DependencyView> {
    if dev {
        st.dev_dependencies
    } else {
        st.dependencies
    }
}

proof fn lemma_prefix_trans(a: Seq<DependencyView>, b: Seq<DependencyView>, c: Seq<DependencyView>)
    requires
        a.is_prefix_of(b),
        b.is_prefix_of(c),
    ensures
        a.is_prefix_of(c),
{
    assert(a =~= c.subrange(0, a.len() as int)) by {
        assert forall|k: int| 0 <= k < a.len() implies a[k] == c[k] by {
            assert(a[k] == b[k]);
            assert(b[k] == c[k]);
        }
    }
}

proof fn lemma_prefix_push(a: Seq<DependencyView>, d: DependencyView)
    ensures
        a.is_prefix_of(a.push(d)),
{
    assert(a =~= a.push(d).subrange(0, a.len() as int));
}

proof fn lemma_prefix_refl(a: Seq<DependencyView>)
    ensures
        a.is_prefix_of(a),
{
    assert(a =~= a.subrange(0, a.len() as int));
}

/// Each step of reading (a line `key = value`, the end of a section, the start
/// of one) keeps the dependencies already read, in order.
proof fn lemma_steps_keep(st: CargoState, ks: Seq<Seq<char>>, v: TomlValue, sec: SectionView)
    ensures
        st.dependencies.is_prefix_of(assign(st, ks, v).dependencies),
        st.dev_dependencies.is_prefix_of(assign(st, ks, v).dev_dependencies),
        st.dependencies.is_prefix_of(close_section(st).dependencies),
        st.dev_dependencies.is_prefix_of(close_section(st).dev_dependencies),
        enter_section(st, sec).dependencies == st.dependencies,
        enter_section(st, sec).dev_dependencies == st.dev_dependencies,
{
    lemma_prefix_refl(st.dependencies);
    lemma_prefix_refl(st.dev_dependencies);
    match st.section {
        SectionView::Dependencies(_) => if ks.len() == 1 {
            match v {
                TomlValue::Str(s) => {
                    lemma_prefix_push(st.dependencies, cargo_dependency(ks[0], s));
                    lemma_prefix_push(st.dev_dependencies, cargo_dependency(ks[0], s));
                },
                TomlValue::Table(Some(s)) => {
                    lemma_prefix_push(st.dependencies, cargo_dependency(ks[0], s));
                    lemma_prefix_push(st.dev_dependencies, cargo_dependency(ks[0], s));
                },
                _ => {},
            }
        },
        SectionView::DependencyTable(_, n) => match st.table_version {
            Some(w) => {
                lemma_prefix_push(st.dependencies, cargo_dependency(n, w));
                lemma_prefix_push(st.dev_dependencies, cargo_dependency(n, w));
            },
            None => {},
        },
        _ => {},
    }
}

/// Reading on from what has been read keeps it: the dependencies and the dev
/// dependencies read so far are the first ones of what the whole text gives.
pub proof fn reading_on_keeps_the_dependencies_read(t: Seq<char>, i: int, st: CargoState)
    ensures
        lines(t, i, st) matches Ok(r) ==> st.dependencies.is_prefix_of(r.dependencies)
            && st.dev_dependencies.is_prefix_of(r.dev_dependencies),
    decreases t.len() - i,
{
    let j = skip_space(t, i);
    if i < 0 || j < i || j > t.len() {
    } else if j == t.len() {
        lemma_steps_keep(st, Seq::empty(), TomlValue::Other, SectionView::Other);
    } else if t[j] == '[' {
        match header(t, j) {
            None => {},
            Some((sec, a)) => match end_of_line(t, a) {
                None => {},
                Some(e) => if e <= i || e > t.len() {
                } else {
                    let c = close_section(st);
                    lemma_steps_keep(st, Seq::empty(), TomlValue::Other, sec);
                    lemma_steps_keep(c, Seq::empty(), TomlValue::Other, sec);
                    reading_on_keeps_the_dependencies_read(t, e, enter_section(c, sec));
                    if let Ok(r) = lines(t, i, st) {
                        lemma_prefix_trans(st.dependencies, c.dependencies, r.dependencies);
                        lemma_prefix_trans(st.dev_dependencies, c.dev_dependencies, r.dev_dependencies);
                    }
                },
            },
        }
    } else {
        match key_path(t, j) {
            None => {},
            Some((ks, a)) => if a < 0 || a >= t.len() || t[a] != '=' {
            } else {
                match toml_value(t, skip_blank(t, a + 1)) {
                    None => {},
                    Some((v, d)) => match end_of_line(t, d) {
                        None => {},
                        Some(e) => if e <= i || e > t.len() {
                        } else {
                            let s = assign(st, ks, v);
                            lemma_steps_keep(st, ks, v, SectionView::Other);
                            reading_on_keeps_the_dependencies_read(t, e, s);
                            if let Ok(r) = lines(t, i, st) {
                                lemma_prefix_trans(st.dependencies, s.dependencies, r.dependencies);
                                lemma_prefix_trans(st.dev_dependencies, s.dev_dependencies, r.dev_dependencies);
                            }
                        },
                    },
                }
            },
        }
    }
}

/// A table `[dependencies.name]` (or `[dev-dependencies.name]`, where `dev` is
/// set) that has been given a version yields a dependency called `name`, next
/// after those read before it, whatever follows the table: the end of the text,
/// another table, or more lines.
pub proof fn dependency_table_yields_its_dependency(
    t: Seq<char>,
    i: int,
    st: CargoState,
    dev: bool,
    name: Seq<char>,
)
    requires
        st.section == SectionView::DependencyTable(dev, name),
        st.table_version is Some,
    ensures
        lines(t, i, st) matches Ok(r) ==> {
            let before = dependencies_of(st, dev);
            let after = dependencies_of(r, dev);
            &&& before.is_prefix_of(after)
            &&& before.len() < after.len()
            &&& after[before.len() as int].name == name
        },
    decreases t.len() - i,
{
    let j = skip_space(t, i);
    let d = cargo_dependency(name, st.table_version->0);
    let c = close_section(st);
    let before = dependencies_of(st, dev);
    assert(c == with_dependency(st, dev, d));
    assert(dependencies_of(c, dev) == before.push(d));
    lemma_prefix_push(before, d);
    if i < 0 || j < i || j > t.len() {
    } else if j == t.len() {
    } else if t[j] == '[' {
        match header(t, j) {
            None => {},
            Some((sec, a)) => match end_of_line(t, a) {
                None => {},
                Some(e) => if e <= i || e > t.len() {
                } else {
                    lemma_steps_keep(c, Seq::empty(), TomlValue::Other, sec);
                    reading_on_keeps_the_dependencies_read(t, e, enter_section(c, sec));
                    if let Ok(r) = lines(t, i, st) {
                        let after = dependencies_of(r, dev);
                        lemma_prefix_trans(before, before.push(d), after);
                        assert(after[before.len() as int] == before.push(d)[before.len() as int]);
                    }
                },
            },
        }
    } else {
        match key_path(t, j) {
            None => {},
            Some((ks, a)) => if a < 0 || a >= t.len() || t[a] != '=' {
            } else {
                match toml_value(t, skip_blank(t, a + 1)) {
                    None => {},
                    Some((v, dd)) => match end_of_line(t, dd) {
                        None => {},
                        Some(e) => if e <= i || e > t.len() {
                        } else {
                            let s = assign(st, ks, v);
                            assert(dependencies_of(s, dev) == before);
                            dependency_table_yields_its_dependency(t, e, s, dev, name);
                        },
                    },
                }
            },
        }
    }
}

/// Skipping blanks stays within the text and never moves back.
pub proof fn lemma_skip_blank(t: Seq<char>, i: int)
    requires
        0 <= i <= t.len(),
    ensures
        i <= skip_blank(t, i) <= t.len(),
    decreases t.len() - i,
{
    if 0 <= i < t.len() && is_blank(t[i]) {
        lemma_skip_blank(t, i + 1);
    }
}

/// Skips blanks.
fn blank_end(t: &[char], i: usize) -> (j: usize)
    requires
        i <= t@.len(),
    ensures
        j == skip_blank(t@, i as int),
        i <= j <= t@.len(),
{
    let mut j = i;
    while j < t.len() && (t[j] == ' ' || t[j] == '\t' || t[j] == '\r')
        invariant
            i <= j <= t@.len(),
            skip_blank(t@, i as int) == skip_blank(t@, j as int),
        decreases t@.len() - j,
    {
        j = j + 1;
    }
    j
}

/// Skips blanks, newlines and comments.
fn space_end(t: &[char], i: usize) -> (j: usize)
    requires
        i <= t@.len(),
    ensures
        j == skip_space(t@, i as int),
        i <= j <= t@.len(),
{
    let mut j = i;
    let mut comment = false;
    while j < t.len()
        invariant
            i <= j <= t@.len(),
            skip_space(t@, i as int) == skip_space_from(t@, j as int, comment),
        decreases t@.len() - j,
    {
        let c = t[j];
        if comment {
            comment = c != '\n';
        } else if c == ' ' || c == '\t' || c == '\r' || c == '\n' {
        } else if c == '#' {
            comment = true;
        } else {
            return j;
        }
        j = j + 1;
    }
    j
}

/// Finds the end of the line at `i`.
fn line_end_from(t: &[char], i: usize) -> (j: usize)
    requires
        i <= t@.len(),
    ensures
        j == line_end(t@, i as int),
        i <= j <= t@.len(),
{
    let mut j = i;
    while j < t.len() && t[j] != '\n'
        invariant
            i <= j <= t@.len(),
            line_end(t@, i as int) == line_end(t@, j as int),
        decreases t@.len() - j,
    {
        j = j + 1;
    }
    if j < t.len() {
        j + 1
    } else {
        j
    }
}

/// Reads the end of a line after blanks and an optional comment.
fn read_end_of_line(t: &[char], i: usize) -> (r: Option<usize>)
    requires
        i <= t@.len(),
    ensures
        match r {
            Some(e) => end_of_line(t@, i as int) == Some(e as int) && i <= e <= t@.len(),
            None => end_of_line(t@, i as int) is None,
        },
{
    let j = blank_end(t, i);
    if j >= t.len() {
        Some(t.len())
    } else if t[j] == '\n' {
        Some(j + 1)
    } else if t[j] == '#' {
        Some(line_end_from(t, j + 1))
    } else {
        None
    }
}

/// Whether `c` may stand in a bare key.
fn bare_char(c: char) -> (b: bool)
    ensures
        b == is_bare(c),
{
    ('a' <= c && c <= 'z') || ('A' <= c && c <= 'Z') || ('0' <= c && c <= '9') || c == '_' || c
        == '-'
}

/// Finds the end of a run of bare key characters.
fn read_bare_end(t: &[char], i: usize) -> (j: usize)
    requires
        i <= t@.len(),
    ensures
        j == bare_end(t@, i as int),
        i <= j <= t@.len(),
{
    let mut j = i;
    while j < t.len() && bare_char(t[j])
        invariant
            i <= j <= t@.len(),
            bare_end(t@, i as int) == bare_end(t@, j as int),
        decreases t@.len() - j,
    {
        j = j + 1;
    }
    j
}

/// The characters from `i` up to `j`.
fn chars_between(t: &[char], i: usize, j: usize) -> (s: String)
    requires
        i <= j <= t@.len(),
    ensures
        s@ == t@.subrange(i as int, j as int),
{
    let mut s = String::new();
    let mut k = i;
    while k < j
        invariant
            i <= k <= j <= t@.len(),
            s@ == t@.subrange(i as int, k as int),
        decreases j - k,
    {
        push_char(&mut s, t[k]);
        assert(s@ =~= t@.subrange(i as int, k + 1));
        k = k + 1;
    }
    s
}

/// Reads the rest of a literal string, after its opening quote.
fn read_literal_body(t: &[char], i: usize) -> (r: Option<(String, usize)>)
    requires
        i <= t@.len(),
    ensures
        match r {
            Some((s, e)) => literal_body(t@, i as int) == Some((s@, e as int)) && i < e <= t@.len(),
            None => literal_body(t@, i as int) is None,
        },
{
    let mut j = i;
    while j < t.len() && t[j] != '\'' && t[j] != '\n'
        invariant
            i <= j <= t@.len(),
            forall|k: int| i <= k < j ==> t@[k] != '\'' && t@[k] != '\n',
        decreases t@.len() - j,
    {
        j = j + 1;
    }
    if j < t.len() && t[j] == '\'' {
        let s = chars_between(t, i, j);
        proof {
            lemma_literal_body(t@, i as int, j as int);
        }
        Some((s, j + 1))
    } else {
        proof {
            lemma_literal_body_none(t@, i as int, j as int);
        }
        None
    }
}

/// A literal string whose closing quote stands at `j` holds the characters
/// before it.
proof fn lemma_literal_body(t: Seq<char>, i: int, j: int)
    requires
        0 <= i <= j < t.len(),
        t[j] == '\'',
        forall|k: int| i <= k < j ==> t[k] != '\'' && t[k] != '\n',
    ensures
        literal_body(t, i) == Some((t.subrange(i, j), j + 1)),
    decreases j - i,
{
    if i < j {
        lemma_literal_body(t, i + 1, j);
        assert(seq![t[i]] + t.subrange(i + 1, j) =~= t.subrange(i, j));
    } else {
        assert(t.subrange(i, j) =~= Seq::<char>::empty());
    }
}

/// A literal string that meets a newline or the end of the text before its
/// closing quote is none.
proof fn lemma_literal_body_none(t: Seq<char>, i: int, j: int)
    requires
        0 <= i <= j <= t.len(),
        j == t.len() || t[j] == '\n',
        forall|k: int| i <= k < j ==> t[k] != '\'' && t[k] != '\n',
    ensures
        literal_body(t, i) is None,
    decreases j - i,
{
    if i < j {
        lemma_literal_body_none(t, i + 1, j);
    }
}

/// Finds the end of a multi-line string: the position after its closing three
/// quotes `q`.
fn read_multiline_end(t: &[char], i: usize, q: char) -> (r: Option<usize>)
    requires
        i <= t@.len(),
    ensures
        match r {
            Some(e) => multiline_end(t@, i as int, q) == Some(e as int) && i < e <= t@.len(),
            None => multiline_end(t@, i as int, q) is None,
        },
{
    let mut j = i;
    while j < t.len()
        invariant
            i <= j <= t@.len(),
            multiline_end(t@, i as int, q) == multiline_end(t@, j as int, q),
        decreases t@.len() - j,
    {
        if t.len() - j >= 3 && t[j] == q && t[j + 1] == q && t[j + 2] == q {
            return Some(j + 3);
        }
        j = j + 1;
    }
    None
}

/// Reads a key: bare or quoted.
fn read_toml_key(t: &[char], i: usize) -> (r: Option<(String, usize)>)
    requires
        i <= t@.len(),
    ensures
        match r {
            Some((k, a)) => toml_key(t@, i as int) == Some((k@, a as int)) && i < a <= t@.len(),
            None => toml_key(t@, i as int) is None,
        },
{
    if i < t.len() && t[i] == '"' {
        read_string_body(t, i + 1)
    } else if i < t.len() && t[i] == '\'' {
        read_literal_body(t, i + 1)
    } else {
        let e = read_bare_end(t, i);
        if e > i {
            Some((chars_between(t, i, e), e))
        } else {
            None
        }
    }
}

/// Whether `c` may stand in a single token value.
fn token_char(c: char) -> (b: bool)
    ensures
        b == is_token_char(c),
{
    !(c == ' ' || c == '\t' || c == '\r' || c == '\n' || c == ',' || c == ']' || c == '}' || c
        == '#' || c == '[' || c == '{' || c == '"' || c == '\'' || c == '=')
}

/// Finds the end of a run of token characters.
fn read_token_end(t: &[char], i: usize) -> (j: usize)
    requires
        i <= t@.len(),
    ensures
        j == token_end(t@, i as int),
        i <= j <= t@.len(),
{
    let mut j = i;
    while j < t.len() && token_char(t[j])
        invariant
            i <= j <= t@.len(),
            token_end(t@, i as int) == token_end(t@, j as int),
        decreases t@.len() - j,
    {
        j = j + 1;
    }
    j
}

/// A value as it was read.
enum Value {
    Str(String),
    Table(Option<String>),
    Other,
}

impl View for Value {
    type V = TomlValue;

    closed spec fn view(&self) -> TomlValue {
        match self {
            Value::Str(s) => TomlValue::Str(s@),
            Value::Table(v) => TomlValue::Table(opt_string_view(*v)),
            Value::Other => TomlValue::Other,
        }
    }
}

/// An optional string, as characters.
pub open spec fn opt_string_view(o: Option<String>) -> Option<Seq<char>> {
    match o {
        Some(s) => Some(s@),
        None => None,
    }
}

/// Reads a value.
fn read_value(t: &[char], i: usize) -> (r: Option<(Value, usize)>)
    requires
        i <= t@.len(),
    ensures
        match r {
            Some((v, e)) => toml_value(t@, i as int) == Some((v@, e as int)) && i < e <= t@.len(),
            None => toml_value(t@, i as int) is None,
        },
    decreases t@.len() - i, 1int,
{
    if i >= t.len() {
        return None;
    }
    let n = t.len();
    if n - i >= 3 && t[i] == '"' && t[i + 1] == '"' && t[i + 2] == '"' {
        match read_multiline_end(t, i + 3, '"') {
            Some(e) => Some((Value::Other, e)),
            None => None,
        }
    } else if t[i] == '"' {
        match read_string_body(t, i + 1) {
            Some((s, e)) => Some((Value::Str(s), e)),
            None => None,
        }
    } else if n - i >= 3 && t[i] == '\'' && t[i + 1] == '\'' && t[i + 2] == '\'' {
        match read_multiline_end(t, i + 3, '\'') {
            Some(e) => Some((Value::Other, e)),
            None => None,
        }
    } else if t[i] == '\'' {
        match read_literal_body(t, i + 1) {
            Some((s, e)) => Some((Value::Str(s), e)),
            None => None,
        }
    } else if t[i] == '[' {
        match read_array_items(t, i + 1) {
            Some(e) => Some((Value::Other, e)),
            None => None,
        }
    } else if t[i] == '{' {
        match read_table_items(t, i + 1, None) {
            Some((v, e)) => Some((Value::Table(v), e)),
            None => None,
        }
    } else {
        let e = read_token_end(t, i);
        if e > i {
            Some((Value::Other, e))
        } else {
            None
        }
    }
}

/// Reads the items of an array, after its `[`.
fn read_array_items(t: &[char], i: usize) -> (r: Option<usize>)
    requires
        i <= t@.len(),
    ensures
        match r {
            Some(e) => array_items(t@, i as int) == Some(e as int) && i < e <= t@.len(),
            None => array_items(t@, i as int) is None,
        },
    decreases t@.len() - i, 2int,
{
    let j = space_end(t, i);
    if j >= t.len() {
        return None;
    }
    if t[j] == ']' {
        return Some(j + 1);
    }
    match read_value(t, j) {
        None => None,
        Some((_, a)) => {
            let b = space_end(t, a);
            if b >= t.len() {
                None
            } else if t[b] == ',' {
                read_array_items(t, b + 1)
            } else if t[b] == ']' {
                Some(b + 1)
            } else {
                None
            }
        },
    }
}

/// Reads the items of an inline table, after its `{`, keeping the version
/// that it gives (after `v`).
fn read_table_items(t: &[char], i: usize, v: Option<String>) -> (r: Option<(Option<String>, usize)>)
    requires
        i <= t@.len(),
    ensures
        match r {
            Some((w, e)) => table_items(t@, i as int, opt_string_view(v)) == Some(
                (opt_string_view(w), e as int),
            ) && i < e <= t@.len(),
            None => table_items(t@, i as int, opt_string_view(v)) is None,
        },
    decreases t@.len() - i, 2int,
{
    let j = blank_end(t, i);
    if j >= t.len() {
        return None;
    }
    if t[j] == '}' {
        return Some((v, j + 1));
    }
    let (k, a) = match read_toml_key(t, j) {
        Some(x) => x,
        None => return None,
    };
    let b = blank_end(t, a);
    if b >= t.len() || t[b] != '=' {
        return None;
    }
    let c = blank_end(t, b + 1);
    if c >= t.len() {
        return None;
    }
    let (val, d) = match read_value(t, c) {
        Some(x) => x,
        None => return None,
    };
    proof {
        reveal_strlit("version");
        assert("version"@ =~= version_key());
    }
    let ghost w0 = table_version(opt_string_view(v), k@, val@);
    let w = if str_eq(k.as_str(), "version") {
        match val {
            Value::Str(s) => Some(s),
            _ => v,
        }
    } else {
        v
    };
    assert(opt_string_view(w) == w0);
    let e = blank_end(t, d);
    if e >= t.len() {
        None
    } else if t[e] == ',' {
        read_table_items(t, e + 1, w)
    } else if t[e] == '}' {
        Some((w, e + 1))
    } else {
        None
    }
}

/// Strings as characters.
pub open spec fn strings_view(v: Seq<String>) -> Seq<Seq<char>> {
    v.map_values(|s: String| s@)
}

/// Reads a dotted key and the blanks after it.
fn read_key_path(t: &[char], i: usize) -> (r: Option<(Vec<String>, usize)>)
    requires
        i <= t@.len(),
    ensures
        match r {
            Some((ks, e)) => key_path(t@, i as int) == Some((strings_view(ks@), e as int)) && i < e
                <= t@.len(),
            None => key_path(t@, i as int) is None,
        },
    decreases t@.len() - i,
{
    let (k, a) = match read_toml_key(t, i) {
        Some(x) => x,
        None => return None,
    };
    let b = blank_end(t, a);
    if b < t.len() && t[b] == '.' {
        let c = blank_end(t, b + 1);
        match read_key_path(t, c) {
            Some((rest, e)) => {
                let mut ks: Vec<String> = Vec::new();
                ks.push(k);
                let ghost tail = rest@;
                let mut rest = rest;
                ks.append(&mut rest);
                assert(strings_view(ks@) =~= seq![k@] + strings_view(tail));
                Some((ks, e))
            },
            None => None,
        }
    } else {
        let mut ks: Vec<String> = Vec::new();
        ks.push(k);
        assert(strings_view(ks@) =~= seq![k@]);
        Some((ks, b))
    }
}

/// Dependencies one after another: the meta data of one more dependency
/// follows that of the others.
pub proof fn lemma_dependencies_meta_push(node: Seq<char>, ds: Seq<DependencyView>, d: DependencyView)
    ensures
        dependencies_meta(node, ds.push(d)) == dependencies_meta(node, ds) + dependency_meta(node, d),
    decreases ds.len(),
{
    if ds.len() == 0 {
        assert(ds.push(d).drop_first() =~= Seq::<DependencyView>::empty());
        assert(ds.push(d)[0] == d);
        assert(dependencies_meta(node, ds.push(d)) == dependency_meta(node, d) + dependencies_meta(node, Seq::<DependencyView>::empty()));
        assert(dependencies_meta(node, ds.push(d)) =~= dependencies_meta(node, ds) + dependency_meta(node, d));
    } else {
        lemma_dependencies_meta_push(node, ds.drop_first(), d);
        assert(ds.push(d).drop_first() =~= ds.drop_first().push(d));
        assert(ds.push(d)[0] == ds[0]);
        let a = dependency_meta(node, ds[0]);
        let b = dependencies_meta(node, ds.drop_first());
        let c = dependency_meta(node, d);
        assert(dependencies_meta(node, ds.push(d)) == a + (b + c));
        assert(a + (b + c) =~= (a + b) + c);
    }
}

/// Pushes the meta data of a dependency, in a node called `node`, onto `out`.
pub(crate) fn push_dependency_meta(out: &mut Vec<MetaData>, node: &str, d: &Dependency)
    ensures
        meta_view(final(out)@) == meta_view(old(out)@) + dependency_meta(node@, d@),
{
    proof {
        reveal_strlit("name");
        reveal_strlit("version");
        reveal_strlit("ignore-version");
        assert("name"@ =~= name_key());
        assert("version"@ =~= version_key());
        assert("ignore-version"@ =~= ignore_version_key());
    }
    out.push(MetaData::StartNode(shared(node)));
    out.push(MetaData::String(shared("name"), arc_clone(&d.name)));
    out.push(MetaData::String(shared("version"), arc_clone(&d.version)));
    let ghost mid = meta_view(out@);
    match &d.ignore_version {
        Some(v) => {
            out.push(MetaData::String(shared("ignore-version"), arc_clone(v)));
        },
        None => {},
    }
    let ghost opt = match d@.ignore_version {
        Some(v) => seq![MetaView::String(ignore_version_key(), v)],
        None => Seq::<MetaView>::empty(),
    };
    assert(meta_view(out@) =~= mid + opt);
    out.push(MetaData::EndNode(shared(node)));
    assert(meta_view(out@) =~= meta_view(old(out)@) + dependency_meta(node@, d@));
}

/// Pushes the meta data of dependencies, each in a node called `node`, onto
/// `out`.
pub(crate) fn push_dependencies_meta(out: &mut Vec<MetaData>, node: &str, ds: &[Dependency])
    ensures
        meta_view(final(out)@) == meta_view(old(out)@) + dependencies_meta(node@, deps_view(ds@)),
{
    let ghost base = meta_view(out@);
    assert(deps_view(ds@.take(0)) =~= Seq::<DependencyView>::empty());
    assert(base + Seq::<MetaView>::empty() =~= base);
    for k in 0..ds.len()
        invariant
            meta_view(out@) == base + dependencies_meta(node@, deps_view(ds@.take(k as int))),
    {
        let ghost before = deps_view(ds@.take(k as int));
        push_dependency_meta(out, node, &ds[k]);
        proof {
            assert(deps_view(ds@.take(k + 1)) =~= before.push(ds@[k as int]@));
            lemma_dependencies_meta_push(node@, before, ds@[k as int]@);
            assert(meta_view(out@) =~= base + dependencies_meta(node@, deps_view(ds@.take(k + 1))));
        }
    }
    assert(ds@.take(ds@.len() as int) =~= ds@);
}

/// The section of the current line, as it was read.
enum Section {
    Package,
    Dependencies(bool),
    DependencyTable(bool, String),
    Other,
}

impl View for Section {
    type V = SectionView;

    closed spec fn view(&self) -> SectionView {
        match self {
            Section::Package => SectionView::Package,
            Section::Dependencies(dev) => SectionView::Dependencies(*dev),
            Section::DependencyTable(dev, n) => SectionView::DependencyTable(*dev, n@),
            Section::Other => SectionView::Other,
        }
    }
}

/// Whether a dotted key is the single key `k`.
fn is_single_key(ks: &Vec<String>, k: &str) -> (b: bool)
    ensures
        b == (strings_view(ks@) == seq![k@]),
{
    if ks.len() == 1 && str_eq(ks[0].as_str(), k) {
        assert(strings_view(ks@) =~= seq![k@]);
        true
    } else {
        if ks.len() == 1 {
            assert(strings_view(ks@)[0] == ks@[0]@);
        } else {
            assert(strings_view(ks@).len() != seq![k@].len());
        }
        false
    }
}

/// The section of a table header with the dotted key `ks`.
fn section_from(ks: &Vec<String>) -> (s: Section)
    ensures
        s@ == section_of(strings_view(ks@)),
{
    proof {
        reveal_strlit("package");
        reveal_strlit("dependencies");
        reveal_strlit("dev-dependencies");
        assert("package"@ =~= package_table());
        assert("dependencies"@ =~= dependencies_table());
        assert("dev-dependencies"@ =~= dev_dependencies_table());
    }
    if is_single_key(ks, "package") {
        Section::Package
    } else if is_single_key(ks, "dependencies") {
        Section::Dependencies(false)
    } else if is_single_key(ks, "dev-dependencies") {
        Section::Dependencies(true)
    } else if ks.len() == 2 && str_eq(ks[0].as_str(), "dependencies") {
        Section::DependencyTable(false, ks[1].clone())
    } else if ks.len() == 2 && str_eq(ks[0].as_str(), "dev-dependencies") {
        Section::DependencyTable(true, ks[1].clone())
    } else {
        Section::Other
    }
}

/// Reads a table header at `i`, where `[` stands.
fn read_header(t: &[char], i: usize) -> (r: Option<(Section, usize)>)
    requires
        i < t@.len(),
    ensures
        match r {
            Some((s, e)) => header(t@, i as int) == Some((s@, e as int)) && i < e <= t@.len(),
            None => header(t@, i as int) is None,
        },
{
    if t.len() - i >= 2 && t[i + 1] == '[' {
        let (_, a) = match read_key_path(t, blank_end(t, i + 2)) {
            Some(x) => x,
            None => return None,
        };
        if t.len() - a >= 2 && t[a] == ']' && t[a + 1] == ']' {
            Some((Section::Other, a + 2))
        } else {
            None
        }
    } else {
        let (ks, a) = match read_key_path(t, blank_end(t, i + 1)) {
            Some(x) => x,
            None => return None,
        };
        if a < t.len() && t[a] == ']' {
            Some((section_from(&ks), a + 1))
        } else {
            None
        }
    }
}

/// What has been read of a Cargo.toml.
struct TomlState {
    section: Section,
    name: Option<String>,
    version: Option<String>,
    dependencies: Vec<Dependency>,
    dev_dependencies: Vec<Dependency>,
    table_version: Option<String>,
}

impl View for TomlState {
    type V = CargoState;

    closed spec fn view(&self) -> CargoState {
        CargoState {
            section: self.section@,
            name: opt_string_view(self.name),
            version: opt_string_view(self.version),
            dependencies: deps_view(self.dependencies@),
            dev_dependencies: deps_view(self.dev_dependencies@),
            table_version: opt_string_view(self.table_version),
        }
    }
}

impl TomlState {
    /// Nothing read yet.
    fn new() -> (m: TomlState)
        ensures
            m@ == initial_state(),
    {
        let m = TomlState {
            section: Section::Other,
            name: None,
            version: None,
            dependencies: Vec::new(),
            dev_dependencies: Vec::new(),
            table_version: None,
        };
        assert(deps_view(m.dependencies@) =~= Seq::<DependencyView>::empty());
        assert(deps_view(m.dev_dependencies@) =~= Seq::<DependencyView>::empty());
        m
    }

    /// Adds a dependency (a dev dependency, where `dev` is set).
    fn add_dependency(&mut self, dev: bool, name: String, version: String)
        ensures
            final(self)@ == with_dependency(old(self)@, dev, cargo_dependency(name@, version@)),
    {
        let d = Dependency { name: Arc::new(name), version: Arc::new(version), ignore_version: None };
        if dev {
            let ghost before = deps_view(self.dev_dependencies@);
            self.dev_dependencies.push(d);
            assert(deps_view(self.dev_dependencies@) =~= before.push(d@));
        } else {
            let ghost before = deps_view(self.dependencies@);
            self.dependencies.push(d);
            assert(deps_view(self.dependencies@) =~= before.push(d@));
        }
    }

    /// Ends the current section.
    fn close_section(&mut self)
        ensures
            final(self)@ == close_section(old(self)@),
    {
        let found = match &self.section {
            Section::DependencyTable(dev, n) => match &self.table_version {
                Some(v) => Some((*dev, n.clone(), v.clone())),
                None => None,
            },
            _ => None,
        };
        match found {
            Some((dev, n, v)) => self.add_dependency(dev, n, v),
            None => {},
        }
    }

    /// Starts a section.
    fn enter_section(&mut self, sec: Section)
        ensures
            final(self)@ == enter_section(old(self)@, sec@),
    {
        self.section = sec;
        self.table_version = None;
    }

    /// Reads a line `ks = v` in the current section.
    fn assign(&mut self, ks: Vec<String>, v: Value)
        ensures
            final(self)@ == assign(old(self)@, strings_view(ks@), v@),
    {
        proof {
            reveal_strlit("name");
            reveal_strlit("version");
            assert("name"@ =~= name_key());
            assert("version"@ =~= version_key());
        }
        let mut sec = Section::Other;
        std::mem::swap(&mut sec, &mut self.section);
        match &sec {
            Section::Package => match v {
                Value::Str(s) => if is_single_key(&ks, "name") {
                    self.name = Some(s);
                } else if is_single_key(&ks, "version") {
                    self.version = Some(s);
                },
                _ => {},
            },
            Section::Dependencies(dev) => {
                let dev = *dev;
                if ks.len() == 1 {
                    assert(strings_view(ks@)[0] == ks@[0]@);
                    match v {
                        Value::Str(s) => {
                            self.add_dependency(dev, ks[0].clone(), s);
                        },
                        Value::Table(Some(s)) => {
                            self.add_dependency(dev, ks[0].clone(), s);
                        },
                        _ => {},
                    }
                }
            },
            Section::DependencyTable(_, _) => match v {
                Value::Str(s) => if is_single_key(&ks, "version") {
                    self.table_version = Some(s);
                },
                _ => {},
            },
            Section::Other => {},
        }
        self.section = sec;
    }

    /// The meta data of what was read.
    fn meta(&self) -> (r: Vec<MetaData>)
        ensures
            meta_view(r@) == cargo_meta(self@),
    {
        proof {
            reveal_strlit("package");
            reveal_strlit("name");
            reveal_strlit("version");
            reveal_strlit("dependency");
            reveal_strlit("dev_dependency");
            assert("package"@ =~= package_node());
            assert("name"@ =~= name_key());
            assert("version"@ =~= version_key());
            assert("dependency"@ =~= dependency_node());
            assert("dev_dependency"@ =~= dev_dependency_node());
        }
        let mut out: Vec<MetaData> = Vec::new();
        out.push(MetaData::StartNode(shared("package")));
        let ghost a = meta_view(out@);
        match &self.name {
            Some(n) => out.push(MetaData::String(shared("name"), Arc::new(n.clone()))),
            None => {},
        }
        assert(meta_view(out@) =~= a + opt_string_meta(name_key(), self@.name));
        let ghost b = meta_view(out@);
        match &self.version {
            Some(v) => out.push(MetaData::String(shared("version"), Arc::new(v.clone()))),
            None => {},
        }
        assert(meta_view(out@) =~= b + opt_string_meta(version_key(), self@.version));
        push_dependencies_meta(&mut out, "dependency", self.dependencies.as_slice());
        push_dependencies_meta(&mut out, "dev_dependency", self.dev_dependencies.as_slice());
        let ghost c = meta_view(out@);
        out.push(MetaData::EndNode(shared("package")));
        assert(meta_view(out@) =~= c + seq![MetaView::EndNode(package_node())]);
        out
    }
}

/// Reads a Cargo.toml into meta data: a package node with the name, the
/// version, the dependencies and the dev dependencies that it gives, where the
/// text is a Cargo.toml that this reader knows; else the position where the
/// first line that it cannot read starts.
pub fn read_cargo_toml(text: &str) -> (r: Result<Vec<MetaData>, usize>)
    ensures
        match r {
            Ok(v) => cargo_toml_read(text@) matches Ok(st) && meta_view(v@) == cargo_meta(st),
            Err(p) => cargo_toml_read(text@) == Err::<CargoState, int>(p as int) && p < text@.len(),
        },
{
    let chars = chars_of(text);
    let t = chars.as_slice();
    let mut m = TomlState::new();
    let mut i: usize = 0;
    loop
        invariant
            t@ == text@,
            i <= t@.len(),
            lines(t@, i as int, m@) == cargo_toml_read(text@),
        decreases t@.len() - i,
    {
        let j = space_end(t, i);
        if j == t.len() {
            m.close_section();
            return Ok(m.meta());
        }
        if t[j] == '[' {
            let (sec, a) = match read_header(t, j) {
                Some(x) => x,
                None => return Err(j),
            };
            let e = match read_end_of_line(t, a) {
                Some(x) => x,
                None => return Err(j),
            };
            m.close_section();
            m.enter_section(sec);
            i = e;
        } else {
            let (ks, a) = match read_key_path(t, j) {
                Some(x) => x,
                None => return Err(j),
            };
            if a >= t.len() || t[a] != '=' {
                return Err(j);
            }
            let (v, d) = match read_value(t, blank_end(t, a + 1)) {
                Some(x) => x,
                None => return Err(j),
            };
            let e = match read_end_of_line(t, d) {
                Some(x) => x,
                None => return Err(j),
            };
            m.assign(ks, v);
            i = e;
        }
    }
}

/// Converting the meta data read from a Cargo.toml gives its package, where the
/// Cargo.toml gives a name and a version, and fails otherwise; it never gets
/// stuck and ignores nothing.
#[verifier::spinoff_prover]
#[verifier::rlimit(50)]
pub proof fn converting_cargo_meta_gives_the_package(st: CargoState)
    ensures
        package_outcome(cargo_meta(st), 0) == match (st.name, st.version) {
            (Some(n), Some(v)) => succeeded(
                cargo_meta(st).len() as int,
                PackageView {
                    name: n,
                    version: v,
                    dependencies: st.dependencies,
                    dev_dependencies: st.dev_dependencies,
                },
            ),
            _ => failed(),
        },
{
    let data = cargo_meta(st);
    let head = seq![MetaView::StartNode(package_node())];
    let nm = opt_string_meta(name_key(), st.name);
    let vm = opt_string_meta(version_key(), st.version);
    let dm = dependencies_meta(dependency_node(), st.dependencies);
    let ddm = dependencies_meta(dev_dependency_node(), st.dev_dependencies);
    let tail = seq![MetaView::EndNode(package_node())];
    assert(data =~= head + (nm + (vm + (dm + (ddm + tail)))));
    let p1: int = 1;
    let p2 = p1 + nm.len();
    let p3 = p2 + vm.len();
    let p4 = p3 + dm.len();
    let p5 = p4 + ddm.len();
    assert(data.subrange(0, data.len() as int) =~= data);
    lemma_split(data, 0, head, nm + (vm + (dm + (ddm + tail))));
    lemma_split(data, p1, nm, vm + (dm + (ddm + tail)));
    lemma_split(data, p2, vm, dm + (ddm + tail));
    lemma_split(data, p3, dm, ddm + tail);
    lemma_split(data, p4, ddm, tail);
    assert(data[0] == head[0]);
    assert(data[p5] == tail[0]);
    assert(name_key() != version_key()) by {
        assert(name_key().len() != version_key().len());
    }
    let f0: PackageFields = (None, None, Seq::empty(), Seq::empty());
    let f1: PackageFields = (st.name, None, Seq::empty(), Seq::empty());
    let f2: PackageFields = (st.name, st.version, Seq::empty(), Seq::empty());
    if let Some(n) = st.name {
        assert(data[p1] == nm[0]);
        assert(package_loop(data, p1, f0) == package_loop(data, p2, f1));
    } else {
        assert(f1 == f0);
    }
    if let Some(v) = st.version {
        assert(data[p2] == vm[0]);
        assert(package_loop(data, p2, f1) == package_loop(data, p3, f2));
    } else {
        assert(f2 == f1);
    }
    lemma_package_loop_dependencies(data, p3, false, st.dependencies, f2);
    let f3: PackageFields = (st.name, st.version, Seq::empty() + st.dependencies, Seq::empty());
    lemma_package_loop_dependencies(data, p4, true, st.dev_dependencies, f3);
    assert(Seq::<DependencyView>::empty() + st.dependencies =~= st.dependencies);
    assert(Seq::<DependencyView>::empty() + st.dev_dependencies =~= st.dev_dependencies);
    let f5: PackageFields = (st.name, st.version, st.dependencies, st.dev_dependencies);
    assert(package_loop(data, p5, f5) == Outcome {
        stuck: false,
        ignored: Seq::<Range>::empty(),
        result: Some((p5 + 1, f5)),
    });
    assert(package_loop(data, p1, f0) == package_loop(data, p5, f5));
}

/// What piston_meta's `ParseErrorHandler::write` writes for the text `text`
/// when reading stops at character `p` before the end ("Expected end").
pub uninterp spec fn expected_end_report(text: Seq<char>, p: nat) -> Seq<char>;

/// Writes the report of a text whose reading stopped at character `p` before
/// its end, with `ParseErrorHandler::write` of piston_meta on the error
/// `ParseError::ExpectedEnd` at an empty range at `p`.
/// Trusted: the result is what that function writes, which depends on the
/// text and the position alone (`expected_end_report`). Nothing more is said
/// of it here: it is a line `Error Expected end`, then the line holding `p` and
/// a caret under `p`, each after its line and column numbers. Writing into a
/// `Vec<u8>` does not fail, and what is written is characters of the text and
/// of the message, so it is valid UTF-8.
#[verifier::external_body]
pub(crate) fn write_expected_end_report(text: &str, p: usize) -> (r: String)
    ensures
        r@ == expected_end_report(text@, p as nat),
{
    let mut w: Vec<u8> = Vec::new();
    let error = piston_meta::Range::empty(p).wrap(piston_meta::ParseError::ExpectedEnd);
    piston_meta::ParseErrorHandler::new(text).write(&mut w, error).unwrap();
    String::from_utf8(w).unwrap()
}

} // verus!
