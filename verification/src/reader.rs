//! Reading the JSON documents of extract info and dependency info into meta
//! data.
//!
//! Extract info is an object with a member for each library:
//! `"name": {"url": "..", "ignore-version": ".."}`, where `"ignore-version"` is
//! optional. Dependency info is an object with a member for each package:
//! `"name": {"version": "..", "dependencies": {..}, "dev-dependencies": {..}}`,
//! whose dependencies are members `"name": {"version": "..", "ignore-version": ".."}`.
//! Whitespace may stand between any two tokens; strings are JSON strings with
//! the escapes `\\`, `\"`, `\n`, `\r` and `\t`.
use crate::dependencies::{
    dependencies_meta, dependency_meta, package_meta, packages_meta, DependencyView, PackageView, dependency_node, dev_dependency_node, ignore_version_key, name_key, package_node, version_key,
};
use crate::extract::{libraries_meta, library_meta, library_node, package_key, url_key, ExtractView};
use crate::meta::{meta_view, MetaData, MetaView};
use crate::text::{push_char, str_eq};
use std::sync::Arc;
use vstd::prelude::*;

verus! {

/// The kinds of record members: members whose value is an object of at most
/// two string properties.
#[derive(Clone, Copy, PartialEq, Eq, Debug, Structural)]
pub enum Record {
    /// A library of extract info.
    Library,
    /// A dependency of a package.
    Dependency,
    /// A dev dependency of a package.
    DevDependency,
}

/// The JSON key of a package's dependencies.
pub open spec fn dependencies_json_key() -> Seq<char> {
    seq!['d', 'e', 'p', 'e', 'n', 'd', 'e', 'n', 'c', 'i', 'e', 's']
}

/// The JSON key of a package's dev dependencies.
pub open spec fn dev_dependencies_json_key() -> Seq<char> {
    seq!['d', 'e', 'v', '-', 'd', 'e', 'p', 'e', 'n', 'd', 'e', 'n', 'c', 'i', 'e', 's']
}

/// Whitespace between tokens.
pub open spec fn is_ws(c: char) -> bool {
    c == ' ' || c == '\t' || c == '\n' || c == '\r'
}

/// The first position from `i` on that does not hold whitespace.
pub open spec fn skip_ws(t: Seq<char>, i: int) -> int
    decreases t.len() - i,
{
    if 0 <= i < t.len() && is_ws(t[i]) {
        skip_ws(t, i + 1)
    } else {
        i
    }
}

/// The character that an escape `\c` stands for.
pub open spec fn unescape(c: char) -> Option<char> {
    if c == '\\' {
        Some('\\')
    } else if c == '"' {
        Some('"')
    } else if c == 'n' {
        Some('\n')
    } else if c == 'r' {
        Some('\r')
    } else if c == 't' {
        Some('\t')
    } else {
        None
    }
}

/// The rest of a JSON string from `i` on (after its opening quote): its value
/// and the position after its closing quote.
pub open spec fn string_body(t: Seq<char>, i: int) -> Option<(Seq<char>, int)>
    decreases t.len() - i,
{
    if i < 0 || i >= t.len() {
        None
    } else if t[i] == '"' {
        Some((Seq::empty(), i + 1))
    } else if t[i] == '\\' {
        if i + 1 < t.len() && unescape(t[i + 1]) is Some {
            match string_body(t, i + 2) {
                Some((s, e)) => Some((seq![unescape(t[i + 1])->0] + s, e)),
                None => None,
            }
        } else {
            None
        }
    } else {
        match string_body(t, i + 1) {
            Some((s, e)) => Some((seq![t[i]] + s, e)),
            None => None,
        }
    }
}

/// The JSON string after whitespace from `i` on: its value and the position
/// after it.
pub open spec fn value(t: Seq<char>, i: int) -> Option<(Seq<char>, int)> {
    let j = skip_ws(t, i);
    if 0 <= j < t.len() && t[j] == '"' {
        string_body(t, j + 1)
    } else {
        None
    }
}

/// The character `c` after whitespace from `i` on: the position after it.
pub open spec fn token(t: Seq<char>, i: int, c: char) -> Option<int> {
    let j = skip_ws(t, i);
    if 0 <= j < t.len() && t[j] == c {
        Some(j + 1)
    } else {
        None
    }
}

/// The key `k` and a colon from `i` on: the position after the colon.
pub open spec fn key(t: Seq<char>, i: int, k: Seq<char>) -> Option<int> {
    match value(t, i) {
        Some((s, e)) => if s == k {
            token(t, e, ':')
        } else {
            None
        },
        None => None,
    }
}

/// The node that holds a record of this kind.
pub open spec fn record_node(kind: Record) -> Seq<char> {
    match kind {
        Record::Library => library_node(),
        Record::Dependency => dependency_node(),
        Record::DevDependency => dev_dependency_node(),
    }
}

/// The property that holds the name of a record of this kind.
pub open spec fn record_name_key(kind: Record) -> Seq<char> {
    match kind {
        Record::Library => package_key(),
        _ => name_key(),
    }
}

/// The JSON key, and the property, of the first property of a record.
pub open spec fn first_key(kind: Record) -> Seq<char> {
    match kind {
        Record::Library => url_key(),
        _ => version_key(),
    }
}

/// The property that holds the version to ignore of a record.
pub open spec fn second_key(kind: Record) -> Seq<char> {
    match kind {
        Record::Library => crate::extract::ignore_version_key(),
        _ => ignore_version_key(),
    }
}

/// What a record holds: its name, its first property and its optional version
/// to ignore.
pub type Triple = (Seq<char>, Seq<char>, Option<Seq<char>>);

/// A record member from `i` on: `"name": {"first": "..", "ignore-version": ".."}`
/// with the second property optional.
pub open spec fn entry(t: Seq<char>, i: int, kind: Record) -> Option<(Triple, int)> {
    match value(t, i) {
        None => None,
        Some((name, a)) => match token(t, a, ':') {
            None => None,
            Some(b) => match token(t, b, '{') {
                None => None,
                Some(c) => match key(t, c, first_key(kind)) {
                    None => None,
                    Some(d) => match value(t, d) {
                        None => None,
                        Some((v1, e)) => match token(t, e, ',') {
                            Some(f) => match key(t, f, ignore_version_key()) {
                                None => None,
                                Some(g) => match value(t, g) {
                                    None => None,
                                    Some((v2, h)) => match token(t, h, '}') {
                                        None => None,
                                        Some(k) => Some(((name, v1, Some(v2)), k)),
                                    },
                                },
                            },
                            None => match token(t, e, '}') {
                                None => None,
                                Some(k) => Some(((name, v1, None), k)),
                            },
                        },
                    },
                },
            },
        },
    }
}

/// Record members from `i` on, up to and with the closing `}`.
pub open spec fn record_list(t: Seq<char>, i: int, kind: Record) -> Option<(Seq<Triple>, int)>
    decreases t.len() - i,
{
    match entry(t, i, kind) {
        None => None,
        Some((r, j)) => match token(t, j, ',') {
            Some(k) => if i < k {
                match record_list(t, k, kind) {
                    Some((rs, e)) => Some((seq![r] + rs, e)),
                    None => None,
                }
            } else {
                None
            },
            None => match token(t, j, '}') {
                Some(e) => Some((seq![r], e)),
                None => None,
            },
        },
    }
}

/// An object of record members from `i` on.
pub open spec fn record_object(t: Seq<char>, i: int, kind: Record) -> Option<(Seq<Triple>, int)> {
    match token(t, i, '{') {
        None => None,
        Some(j) => match token(t, j, '}') {
            Some(k) => Some((Seq::empty(), k)),
            None => record_list(t, j, kind),
        },
    }
}

/// A record as a dependency.
pub open spec fn dependency_of(r: Triple) -> DependencyView {
    DependencyView { name: r.0, version: r.1, ignore_version: r.2 }
}

/// A record as a library.
pub open spec fn library_of(r: Triple) -> ExtractView {
    ExtractView { package: r.0, url: r.1, ignore_version: r.2 }
}

/// A package member from `i` on.
#[verifier::opaque]
pub open spec fn package_member(t: Seq<char>, i: int) -> Option<(PackageView, int)> {
    match value(t, i) {
        None => None,
        Some((name, a)) => match token(t, a, ':') {
            None => None,
            Some(b) => match token(t, b, '{') {
                None => None,
                Some(c) => match key(t, c, version_key()) {
                    None => None,
                    Some(d) => match value(t, d) {
                        None => None,
                        Some((v, e)) => match token(t, e, ',') {
                            None => None,
                            Some(f) => match key(t, f, dependencies_json_key()) {
                                None => None,
                                Some(g) => match record_object(t, g, Record::Dependency) {
                                    None => None,
                                    Some((ds, h)) => match token(t, h, ',') {
                                        None => None,
                                        Some(k) => match key(t, k, dev_dependencies_json_key()) {
                                            None => None,
                                            Some(l) => match record_object(t, l, Record::DevDependency) {
                                                None => None,
                                                Some((dds, m)) => match token(t, m, '}') {
                                                    None => None,
                                                    Some(n) => Some(
                                                        (
                                                            PackageView {
                                                                name,
                                                                version: v,
                                                                dependencies: ds.map_values(|r: Triple| dependency_of(r)),
                                                                dev_dependencies: dds.map_values(|r: Triple| dependency_of(r)),
                                                            },
                                                            n,
                                                        ),
                                                    ),
                                                },
                                            },
                                        },
                                    },
                                },
                            },
                        },
                    },
                },
            },
        },
    }
}

/// Package members from `i` on, up to and with the closing `}`.
pub open spec fn package_list(t: Seq<char>, i: int) -> Option<(Seq<PackageView>, int)>
    decreases t.len() - i,
{
    match package_member(t, i) {
        None => None,
        Some((p, j)) => match token(t, j, ',') {
            Some(k) => if i < k {
                match package_list(t, k) {
                    Some((ps, e)) => Some((seq![p] + ps, e)),
                    None => None,
                }
            } else {
                None
            },
            None => match token(t, j, '}') {
                Some(e) => Some((seq![p], e)),
                None => None,
            },
        },
    }
}

/// An object of package members from `i` on.
pub open spec fn package_object(t: Seq<char>, i: int) -> Option<(Seq<PackageView>, int)> {
    match token(t, i, '{') {
        None => None,
        Some(j) => match token(t, j, '}') {
            Some(k) => Some((Seq::empty(), k)),
            None => package_list(t, j),
        },
    }
}

/// The packages of a dependency info document.
pub open spec fn dependency_info(t: Seq<char>) -> Option<Seq<PackageView>> {
    match package_object(t, 0) {
        Some((ps, e)) => if skip_ws(t, e) == t.len() {
            Some(ps)
        } else {
            None
        },
        None => None,
    }
}

/// The libraries of an extract info document.
pub open spec fn extract_info(t: Seq<char>) -> Option<Seq<ExtractView>> {
    match record_object(t, 0, Record::Library) {
        Some((rs, e)) => if skip_ws(t, e) == t.len() {
            Some(rs.map_values(|r: Triple| library_of(r)))
        } else {
            None
        },
        None => None,
    }
}

/// The meta data of a record.
pub open spec fn record_meta(kind: Record, r: Triple) -> Seq<MetaView> {
    seq![
        MetaView::StartNode(record_node(kind)),
        MetaView::String(record_name_key(kind), r.0),
        MetaView::String(first_key(kind), r.1),
    ] + match r.2 {
        Some(v) => seq![MetaView::String(second_key(kind), v)],
        None => Seq::empty(),
    } + seq![MetaView::EndNode(record_node(kind))]
}

/// The meta data of records, one after another.
pub open spec fn records_meta(kind: Record, rs: Seq<Triple>) -> Seq<MetaView>
    decreases rs.len(),
{
    if rs.len() == 0 {
        Seq::empty()
    } else {
        record_meta(kind, rs[0]) + records_meta(kind, rs.drop_first())
    }
}

/// A result read after the characters `acc`.
pub open spec fn after_chars(acc: Seq<char>, r: Option<(Seq<char>, int)>) -> Option<(Seq<char>, int)> {
    match r {
        Some((v, e)) => Some((acc + v, e)),
        None => None,
    }
}

/// Skipping whitespace stays within the text and never moves back.
pub proof fn lemma_skip_ws(t: Seq<char>, i: int)
    requires
        0 <= i <= t.len(),
    ensures
        i <= skip_ws(t, i) <= t.len(),
    decreases t.len() - i,
{
    if 0 <= i < t.len() && is_ws(t[i]) {
        lemma_skip_ws(t, i + 1);
    }
}

/// Skips whitespace.
fn skip_whitespace(t: &[char], i: usize) -> (j: usize)
    requires
        i <= t@.len(),
    ensures
        j == skip_ws(t@, i as int),
        i <= j <= t@.len(),
{
    let mut j = i;
    while j < t.len() && (t[j] == ' ' || t[j] == '\t' || t[j] == '\n' || t[j] == '\r')
        invariant
            i <= j <= t@.len(),
            skip_ws(t@, i as int) == skip_ws(t@, j as int),
        decreases t@.len() - j,
    {
        j = j + 1;
    }
    j
}

/// Reads the rest of a JSON string, after its opening quote.
pub(crate) fn read_string_body(t: &[char], i: usize) -> (r: Option<(String, usize)>)
    requires
        i <= t@.len(),
    ensures
        match r {
            Some((s, e)) => string_body(t@, i as int) == Some((s@, e as int)) && i < e <= t@.len(),
            None => string_body(t@, i as int) is None,
        },
{
    let mut s = String::new();
    let mut j = i;
    assert(after_chars(s@, string_body(t@, j as int)) =~= string_body(t@, i as int));
    loop
        invariant
            i <= j <= t@.len(),
            after_chars(s@, string_body(t@, j as int)) == string_body(t@, i as int),
        decreases t@.len() - j,
    {
        if j >= t.len() {
            return None;
        }
        let c = t[j];
        if c == '"' {
            assert(s@ + Seq::<char>::empty() =~= s@);
            return Some((s, j + 1));
        } else if c == '\\' {
            if j + 1 >= t.len() {
                return None;
            }
            let e = t[j + 1];
            let u = if e == '\\' {
                '\\'
            } else if e == '"' {
                '"'
            } else if e == 'n' {
                '\n'
            } else if e == 'r' {
                '\r'
            } else if e == 't' {
                '\t'
            } else {
                return None;
            };
            let ghost before = s@;
            push_char(&mut s, u);
            proof {
                assert(unescape(e) == Some(u));
                let rest = string_body(t@, j + 2);
                if let Some((v, _)) = rest {
                    assert(before + (seq![u] + v) =~= s@ + v);
                }
            }
            j = j + 2;
        } else {
            let ghost before = s@;
            push_char(&mut s, c);
            proof {
                let rest = string_body(t@, j + 1);
                if let Some((v, _)) = rest {
                    assert(before + (seq![c] + v) =~= s@ + v);
                }
            }
            j = j + 1;
        }
    }
}

/// Reads a JSON string after whitespace.
fn read_value(t: &[char], i: usize) -> (r: Option<(String, usize)>)
    requires
        i <= t@.len(),
    ensures
        match r {
            Some((s, e)) => value(t@, i as int) == Some((s@, e as int)) && i < e <= t@.len(),
            None => value(t@, i as int) is None,
        },
{
    let j = skip_whitespace(t, i);
    if j < t.len() && t[j] == '"' {
        read_string_body(t, j + 1)
    } else {
        None
    }
}

/// Reads the character `c` after whitespace.
fn read_token(t: &[char], i: usize, c: char) -> (r: Option<usize>)
    requires
        i <= t@.len(),
    ensures
        match r {
            Some(e) => token(t@, i as int, c) == Some(e as int) && i < e <= t@.len(),
            None => token(t@, i as int, c) is None,
        },
{
    let j = skip_whitespace(t, i);
    if j < t.len() && t[j] == c {
        Some(j + 1)
    } else {
        None
    }
}

/// Reads the key `k` and a colon.
fn read_key(t: &[char], i: usize, k: &str) -> (r: Option<usize>)
    requires
        i <= t@.len(),
    ensures
        match r {
            Some(e) => key(t@, i as int, k@) == Some(e as int) && i < e <= t@.len(),
            None => key(t@, i as int, k@) is None,
        },
{
    match read_value(t, i) {
        Some((s, e)) => if str_eq(s.as_str(), k) {
            read_token(t, e, ':')
        } else {
            None
        },
        None => None,
    }
}

/// A shared string with the given characters.
pub(crate) fn shared(s: &str) -> (r: Arc<String>)
    ensures
        r@ == s@,
{
    Arc::new(String::from_str(s))
}

/// The meta data of a dependency record is that of the dependency.
pub proof fn lemma_records_meta_dependencies(kind: Record, rs: Seq<Triple>)
    requires
        kind != Record::Library,
    ensures
        records_meta(kind, rs) == dependencies_meta(
            record_node(kind),
            rs.map_values(|r: Triple| dependency_of(r)),
        ),
    decreases rs.len(),
{
    let ds = rs.map_values(|r: Triple| dependency_of(r));
    if rs.len() > 0 {
        lemma_records_meta_dependencies(kind, rs.drop_first());
        assert(ds.drop_first() =~= rs.drop_first().map_values(|r: Triple| dependency_of(r)));
        assert(record_meta(kind, rs[0]) =~= dependency_meta(record_node(kind), ds[0]));
    } else {
        assert(ds =~= Seq::<DependencyView>::empty());
    }
}

/// The meta data of a library record is that of the library.
pub proof fn lemma_records_meta_libraries(rs: Seq<Triple>)
    ensures
        records_meta(Record::Library, rs) == libraries_meta(rs.map_values(|r: Triple| library_of(r))),
    decreases rs.len(),
{
    let xs = rs.map_values(|r: Triple| library_of(r));
    if rs.len() > 0 {
        lemma_records_meta_libraries(rs.drop_first());
        assert(xs.drop_first() =~= rs.drop_first().map_values(|r: Triple| library_of(r)));
        assert(record_meta(Record::Library, rs[0]) =~= library_meta(xs[0]));
    } else {
        assert(xs =~= Seq::<ExtractView>::empty());
    }
}

/// Records one after another: the meta data of one more record follows that of
/// the others.
pub proof fn lemma_records_meta_push(kind: Record, rs: Seq<Triple>, r: Triple)
    ensures
        records_meta(kind, rs.push(r)) == records_meta(kind, rs) + record_meta(kind, r),
    decreases rs.len(),
{
    if rs.len() == 0 {
        assert(rs.push(r).drop_first() =~= Seq::<Triple>::empty());
        assert(rs.push(r)[0] == r);
        assert(records_meta(kind, rs.push(r)) == record_meta(kind, r) + records_meta(kind, Seq::<Triple>::empty()));
        assert(records_meta(kind, rs.push(r)) =~= records_meta(kind, rs) + record_meta(kind, r));
    } else {
        lemma_records_meta_push(kind, rs.drop_first(), r);
        assert(rs.push(r).drop_first() =~= rs.drop_first().push(r));
        assert(rs.push(r)[0] == rs[0]);
        let a = record_meta(kind, rs[0]);
        let b = records_meta(kind, rs.drop_first());
        let c = record_meta(kind, r);
        assert(records_meta(kind, rs.push(r)) == a + (b + c));
        assert(a + (b + c) =~= (a + b) + c);
    }
}

/// Packages one after another: the meta data of one more package follows that
/// of the others.
pub proof fn lemma_packages_meta_push(ps: Seq<PackageView>, p: PackageView)
    ensures
        packages_meta(ps.push(p)) == packages_meta(ps) + package_meta(p),
    decreases ps.len(),
{
    if ps.len() == 0 {
        assert(ps.push(p).drop_first() =~= Seq::<PackageView>::empty());
        assert(ps.push(p)[0] == p);
        assert(packages_meta(ps.push(p)) == package_meta(p) + packages_meta(Seq::<PackageView>::empty()));
        assert(packages_meta(ps.push(p)) =~= packages_meta(ps) + package_meta(p));
    } else {
        lemma_packages_meta_push(ps.drop_first(), p);
        assert(ps.push(p).drop_first() =~= ps.drop_first().push(p));
        assert(ps.push(p)[0] == ps[0]);
        let a = package_meta(ps[0]);
        let b = packages_meta(ps.drop_first());
        let c = package_meta(p);
        assert(packages_meta(ps.push(p)) == a + (b + c));
        assert(a + (b + c) =~= (a + b) + c);
    }
}

/// The names that a record of this kind uses: its node, its name property, its
/// first property and its version to ignore.
fn record_names(kind: Record) -> (r: (&'static str, &'static str, &'static str, &'static str))
    ensures
        r.0@ == record_node(kind),
        r.1@ == record_name_key(kind),
        r.2@ == first_key(kind),
        r.3@ == second_key(kind),
{
    proof {
        reveal_strlit("library");
        reveal_strlit("dependency");
        reveal_strlit("dev_dependency");
        reveal_strlit("package");
        reveal_strlit("name");
        reveal_strlit("url");
        reveal_strlit("version");
        reveal_strlit("ignore_version");
        reveal_strlit("ignore-version");
    }
    match kind {
        Record::Library => {
            assert("library"@ =~= record_node(kind));
            assert("package"@ =~= record_name_key(kind));
            assert("url"@ =~= first_key(kind));
            assert("ignore_version"@ =~= second_key(kind));
            ("library", "package", "url", "ignore_version")
        },
        Record::Dependency => {
            assert("dependency"@ =~= record_node(kind));
            assert("name"@ =~= record_name_key(kind));
            assert("version"@ =~= first_key(kind));
            assert("ignore-version"@ =~= second_key(kind));
            ("dependency", "name", "version", "ignore-version")
        },
        Record::DevDependency => {
            assert("dev_dependency"@ =~= record_node(kind));
            assert("name"@ =~= record_name_key(kind));
            assert("version"@ =~= first_key(kind));
            assert("ignore-version"@ =~= second_key(kind));
            ("dev_dependency", "name", "version", "ignore-version")
        },
    }
}

/// A record read as strings, as plain values.
pub open spec fn triple_view(r: (String, String, Option<String>)) -> Triple {
    (
        r.0@,
        r.1@,
        match r.2 {
            Some(v) => Some(v@),
            None => None,
        },
    )
}

/// Reads a record member.
fn read_entry(t: &[char], i: usize, kind: Record) -> (r: Option<((String, String, Option<String>), usize)>)
    requires
        i <= t@.len(),
    ensures
        match r {
            Some((v, e)) => entry(t@, i as int, kind) == Some((triple_view(v), e as int)) && i < e
                <= t@.len(),
            None => entry(t@, i as int, kind) is None,
        },
{
    let (name, a) = match read_value(t, i) {
        Some(x) => x,
        None => return None,
    };
    let b = match read_token(t, a, ':') {
        Some(x) => x,
        None => return None,
    };
    let c = match read_token(t, b, '{') {
        Some(x) => x,
        None => return None,
    };
    let names = record_names(kind);
    let d = match read_key(t, c, names.2) {
        Some(x) => x,
        None => return None,
    };
    let (v1, e) = match read_value(t, d) {
        Some(x) => x,
        None => return None,
    };
    match read_token(t, e, ',') {
        Some(f) => {
            proof {
                reveal_strlit("ignore-version");
                assert("ignore-version"@ =~= ignore_version_key());
            }
            let g = match read_key(t, f, "ignore-version") {
                Some(x) => x,
                None => return None,
            };
            let (v2, h) = match read_value(t, g) {
                Some(x) => x,
                None => return None,
            };
            match read_token(t, h, '}') {
                Some(k) => Some(((name, v1, Some(v2)), k)),
                None => None,
            }
        },
        None => match read_token(t, e, '}') {
            Some(k) => Some(((name, v1, None), k)),
            None => None,
        },
    }
}

/// Pushes the meta data of a record onto `out`.
fn push_record(out: &mut Vec<MetaData>, kind: Record, r: (String, String, Option<String>))
    ensures
        meta_view(final(out)@) == meta_view(old(out)@) + record_meta(kind, triple_view(r)),
{
    let ghost v = triple_view(r);
    let names = record_names(kind);
    let (name, first, second) = r;
    out.push(MetaData::StartNode(shared(names.0)));
    out.push(MetaData::String(shared(names.1), Arc::new(name)));
    out.push(MetaData::String(shared(names.2), Arc::new(first)));
    let ghost mid = meta_view(out@);
    match second {
        Some(s) => {
            out.push(MetaData::String(shared(names.3), Arc::new(s)));
        },
        None => {},
    }
    let ghost opt = match v.2 {
        Some(s) => seq![MetaView::String(second_key(kind), s)],
        None => Seq::<MetaView>::empty(),
    };
    assert(meta_view(out@) =~= mid + opt);
    out.push(MetaData::EndNode(shared(names.0)));
    assert(meta_view(out@) =~= meta_view(old(out)@) + record_meta(kind, v));
}

/// Reads an object of record members, pushing their meta data onto `out`.
fn read_record_object(t: &[char], i: usize, kind: Record, out: &mut Vec<MetaData>) -> (r: Option<usize>)
    requires
        i <= t@.len(),
    ensures
        match r {
            Some(e) => record_object(t@, i as int, kind) matches Some((rs, e2)) && e2 == e && i < e
                <= t@.len() && meta_view(final(out)@) == meta_view(old(out)@) + records_meta(kind, rs),
            None => record_object(t@, i as int, kind) is None,
        },
{
    let j = match read_token(t, i, '{') {
        Some(x) => x,
        None => return None,
    };
    if let Some(k) = read_token(t, j, '}') {
        assert(meta_view(out@) =~= meta_view(old(out)@) + records_meta(kind, Seq::empty()));
        return Some(k);
    }
    let ghost full = record_list(t@, j as int, kind);
    let ghost mut acc: Seq<Triple> = Seq::empty();
    let mut pos = j;
    assert(meta_view(out@) =~= meta_view(old(out)@) + records_meta(kind, acc));
    loop
        invariant
            i < j <= pos <= t@.len(),
            full == record_list(t@, j as int, kind),
            full == (match record_list(t@, pos as int, kind) {
                Some((rs, e)) => Some((acc + rs, e)),
                None => None,
            }),
            meta_view(out@) == meta_view(old(out)@) + records_meta(kind, acc),
            record_object(t@, i as int, kind) == full,
        decreases t@.len() - pos,
    {
        let (r, e) = match read_entry(t, pos, kind) {
            Some(x) => x,
            None => return None,
        };
        let ghost rv = triple_view(r);
        push_record(out, kind, r);
        proof {
            lemma_records_meta_push(kind, acc, rv);
        }
        match read_token(t, e, ',') {
            Some(k) => {
                proof {
                    if let Some((rs, e2)) = record_list(t@, k as int, kind) {
                        assert(acc + (seq![rv] + rs) =~= acc.push(rv) + rs);
                    }
                    acc = acc.push(rv);
                }
                pos = k;
            },
            None => {
                let end = match read_token(t, e, '}') {
                    Some(x) => x,
                    None => return None,
                };
                assert(acc + seq![rv] =~= acc.push(rv));
                return Some(end);
            },
        }
    }
}

/// Reads a package member, pushing its meta data onto `out`.
fn read_package_member(t: &[char], i: usize, out: &mut Vec<MetaData>) -> (r: Option<usize>)
    requires
        i <= t@.len(),
    ensures
        match r {
            Some(e) => package_member(t@, i as int) matches Some((p, e2)) && e2 == e && i < e
                <= t@.len() && meta_view(final(out)@) == meta_view(old(out)@) + package_meta(p),
            None => package_member(t@, i as int) is None,
        },
{
    proof {
        reveal(package_member);
        reveal_strlit("version");
        reveal_strlit("dependencies");
        reveal_strlit("dev-dependencies");
        reveal_strlit("package");
        reveal_strlit("name");
        assert("version"@ =~= version_key());
        assert("dependencies"@ =~= dependencies_json_key());
        assert("dev-dependencies"@ =~= dev_dependencies_json_key());
        assert("package"@ =~= package_node());
        assert("name"@ =~= name_key());
    }
    let (name, a) = match read_value(t, i) {
        Some(x) => x,
        None => return None,
    };
    let b = match read_token(t, a, ':') {
        Some(x) => x,
        None => return None,
    };
    let c = match read_token(t, b, '{') {
        Some(x) => x,
        None => return None,
    };
    let d = match read_key(t, c, "version") {
        Some(x) => x,
        None => return None,
    };
    let (v, e) = match read_value(t, d) {
        Some(x) => x,
        None => return None,
    };
    let f = match read_token(t, e, ',') {
        Some(x) => x,
        None => return None,
    };
    let g = match read_key(t, f, "dependencies") {
        Some(x) => x,
        None => return None,
    };
    let ghost head = seq![
        MetaView::StartNode(package_node()),
        MetaView::String(name_key(), name@),
        MetaView::String(version_key(), v@),
    ];
    out.push(MetaData::StartNode(shared("package")));
    out.push(MetaData::String(shared("name"), Arc::new(name)));
    out.push(MetaData::String(shared("version"), Arc::new(v)));
    assert(meta_view(out@) =~= meta_view(old(out)@) + head);
    let ghost after_head = meta_view(out@);
    let h = match read_record_object(t, g, Record::Dependency, out) {
        Some(x) => x,
        None => return None,
    };
    let ghost ds = record_object(t@, g as int, Record::Dependency)->Some_0.0;
    proof {
        lemma_records_meta_dependencies(Record::Dependency, ds);
    }
    let ghost after_deps = meta_view(out@);
    let k = match read_token(t, h, ',') {
        Some(x) => x,
        None => return None,
    };
    let l = match read_key(t, k, "dev-dependencies") {
        Some(x) => x,
        None => return None,
    };
    let m = match read_record_object(t, l, Record::DevDependency, out) {
        Some(x) => x,
        None => return None,
    };
    let ghost dds = record_object(t@, l as int, Record::DevDependency)->Some_0.0;
    proof {
        lemma_records_meta_dependencies(Record::DevDependency, dds);
    }
    let ghost after_dev = meta_view(out@);
    let n = match read_token(t, m, '}') {
        Some(x) => x,
        None => return None,
    };
    out.push(MetaData::EndNode(shared("package")));
    let ghost p = package_member(t@, i as int)->Some_0.0;
    assert(meta_view(out@) =~= after_dev + seq![MetaView::EndNode(package_node())]);
    assert(meta_view(out@) =~= meta_view(old(out)@) + package_meta(p));
    Some(n)
}

/// Reads an object of package members, pushing their meta data onto `out`.
fn read_package_object(t: &[char], i: usize, out: &mut Vec<MetaData>) -> (r: Option<usize>)
    requires
        i <= t@.len(),
    ensures
        match r {
            Some(e) => package_object(t@, i as int) matches Some((ps, e2)) && e2 == e && i < e
                <= t@.len() && meta_view(final(out)@) == meta_view(old(out)@) + packages_meta(ps),
            None => package_object(t@, i as int) is None,
        },
{
    let j = match read_token(t, i, '{') {
        Some(x) => x,
        None => return None,
    };
    if let Some(k) = read_token(t, j, '}') {
        assert(meta_view(out@) =~= meta_view(old(out)@) + packages_meta(Seq::empty()));
        return Some(k);
    }
    let ghost full = package_list(t@, j as int);
    let ghost mut acc: Seq<PackageView> = Seq::empty();
    let mut pos = j;
    assert(meta_view(out@) =~= meta_view(old(out)@) + packages_meta(acc));
    loop
        invariant
            i < j <= pos <= t@.len(),
            full == package_list(t@, j as int),
            full == (match package_list(t@, pos as int) {
                Some((ps, e)) => Some((acc + ps, e)),
                None => None,
            }),
            meta_view(out@) == meta_view(old(out)@) + packages_meta(acc),
            package_object(t@, i as int) == full,
        decreases t@.len() - pos,
    {
        let ghost before = meta_view(out@);
        let e = match read_package_member(t, pos, out) {
            Some(x) => x,
            None => return None,
        };
        let ghost p = package_member(t@, pos as int)->Some_0.0;
        proof {
            lemma_packages_meta_push(acc, p);
            assert(meta_view(out@) =~= meta_view(old(out)@) + packages_meta(acc.push(p)));
        }
        match read_token(t, e, ',') {
            Some(k) => {
                proof {
                    if let Some((ps, e2)) = package_list(t@, k as int) {
                        assert(acc + (seq![p] + ps) =~= acc.push(p) + ps);
                    }
                    acc = acc.push(p);
                }
                pos = k;
            },
            None => {
                let end = match read_token(t, e, '}') {
                    Some(x) => x,
                    None => return None,
                };
                assert(acc + seq![p] =~= acc.push(p));
                return Some(end);
            },
        }
    }
}

/// Reads a dependency info document into meta data: the meta data of its
/// packages, where the text is such a document.
pub fn read_dependency_info(text: &str) -> (r: Option<Vec<MetaData>>)
    ensures
        match r {
            Some(v) => dependency_info(text@) matches Some(ps) && meta_view(v@) == packages_meta(ps),
            None => dependency_info(text@) is None,
        },
{
    let t = crate::text::chars_of(text);
    let mut out: Vec<MetaData> = Vec::new();
    match read_package_object(t.as_slice(), 0, &mut out) {
        Some(e) => {
            assert(meta_view(out@) =~= Seq::<MetaView>::empty() + packages_meta(package_object(text@, 0)->Some_0.0));
            if skip_whitespace(t.as_slice(), e) == t.len() {
                Some(out)
            } else {
                None
            }
        },
        None => None,
    }
}

/// Reads an extract info document into meta data: the meta data of its
/// libraries, where the text is such a document.
pub fn read_extract_info(text: &str) -> (r: Option<Vec<MetaData>>)
    ensures
        match r {
            Some(v) => extract_info(text@) matches Some(xs) && meta_view(v@) == libraries_meta(xs),
            None => extract_info(text@) is None,
        },
{
    let t = crate::text::chars_of(text);
    let mut out: Vec<MetaData> = Vec::new();
    match read_record_object(t.as_slice(), 0, Record::Library, &mut out) {
        Some(e) => {
            let ghost rs = record_object(text@, 0, Record::Library)->Some_0.0;
            proof {
                lemma_records_meta_libraries(rs);
            }
            assert(meta_view(out@) =~= Seq::<MetaView>::empty() + records_meta(Record::Library, rs));
            if skip_whitespace(t.as_slice(), e) == t.len() {
                Some(out)
            } else {
                None
            }
        },
        None => None,
    }
}

/// A JSON whitespace character: a space, a tab, a newline or a carriage
/// return.
pub open spec fn json_whitespace(c: char) -> bool {
    seq![' ', '\t', '\n', '\r'].contains(c)
}

/// Whitespace between tokens does not matter, whichever of its characters
/// stand there: from any position before or inside a run of JSON whitespace,
/// reading goes on where the run ends, and a string, a token or a key reads the
/// same as from there.
pub proof fn whitespace_runs_are_skipped(t: Seq<char>, i: int, j: int)
    requires
        0 <= i <= j <= t.len(),
        forall|k: int| i <= k < j ==> json_whitespace(#[trigger] t[k]),
        j == t.len() || !json_whitespace(t[j]),
    ensures
        skip_ws(t, i) == j,
        value(t, i) == value(t, j),
        forall|c: char| #[trigger] token(t, i, c) == token(t, j, c),
        forall|k: Seq<char>| #[trigger] key(t, i, k) == key(t, j, k),
    decreases j - i,
{
    let spaces = seq![' ', '\t', '\n', '\r'];
    if i < j {
        assert(json_whitespace(t[i]));
        assert(is_ws(t[i]));
        whitespace_runs_are_skipped(t, i + 1, j);
    }
    if j < t.len() {
        if is_ws(t[j]) {
            if t[j] == ' ' {
                assert(spaces[0] == t[j]);
            } else if t[j] == '\t' {
                assert(spaces[1] == t[j]);
            } else if t[j] == '\n' {
                assert(spaces[2] == t[j]);
            } else {
                assert(spaces[3] == t[j]);
            }
        }
    }
    assert(skip_ws(t, j) == j);
}

} // verus!
