//! Dependency info written by `dependencies::write` reads back as the same
//! packages.
use crate::dependencies::{
    dependencies_text, dependency_info_text, dependency_text, ignore_version_key, package_text,
    packages_text, version_key, DependencyView, PackageView,
};
use crate::reader::{
    dependencies_json_key, dependency_info, dev_dependencies_json_key, entry, is_ws, key,
    package_list, package_member, package_object, record_list, record_object, skip_ws,
    string_body, token, unescape, value, Record, Triple,
};
use crate::text::{escape, escape_char, json_string};
use vstd::prelude::*;

verus! {

/// The characters `s` stand in `t` from `i` on.
#[verifier::opaque]
pub open spec fn stands_at(t: Seq<char>, i: int, s: Seq<char>) -> bool {
    &&& 0 <= i
    &&& i + s.len() <= t.len()
    &&& forall|k: int| 0 <= k < s.len() ==> t[i + k] == #[trigger] s[k]
}

/// Whitespace only.
pub open spec fn all_ws(w: Seq<char>) -> bool {
    forall|k: int| 0 <= k < w.len() ==> is_ws(#[trigger] w[k])
}

/// Where `a + b` stands, `a` stands and `b` stands after it.
#[verifier::spinoff_prover]
proof fn lemma_stands_split(t: Seq<char>, i: int, a: Seq<char>, b: Seq<char>)
    requires
        stands_at(t, i, a + b),
    ensures
        stands_at(t, i, a),
        stands_at(t, i + a.len(), b),
{
    reveal(stands_at);
    assert forall|k: int| 0 <= k < a.len() implies t[i + k] == #[trigger] a[k] by {
        assert((a + b)[k] == a[k]);
    }
    assert forall|k: int| 0 <= k < b.len() implies t[i + a.len() + k] == #[trigger] b[k] by {
        assert((a + b)[a.len() + k] == b[k]);
    }
}

/// Skipping whitespace passes over the whitespace `w` up to what follows it.
#[verifier::spinoff_prover]
proof fn lemma_skip_ws_over(t: Seq<char>, i: int, w: Seq<char>)
    requires
        stands_at(t, i, w),
        all_ws(w),
        i + w.len() == t.len() || !is_ws(t[i + w.len()]),
    ensures
        skip_ws(t, i) == i + w.len(),
    decreases w.len(),
{
    reveal(stands_at);
    if w.len() > 0 {
        assert(t[i + 0] == w[0]);
        let r = w.drop_first();
        assert forall|k: int| 0 <= k < r.len() implies t[i + 1 + k] == #[trigger] r[k] by {
            assert(t[i + (k + 1)] == w[k + 1]);
        }
        assert forall|k: int| 0 <= k < r.len() implies is_ws(#[trigger] r[k]) by {
            assert(is_ws(w[k + 1]));
        }
        lemma_skip_ws_over(t, i + 1, r);
    }
}

/// The body of a JSON string written with escapes reads back as the string.
#[verifier::spinoff_prover]
proof fn lemma_string_body_escape(t: Seq<char>, i: int, s: Seq<char>)
    requires
        stands_at(t, i, escape(s) + seq!['"']),
    ensures
        string_body(t, i) == Some((s, i + escape(s).len() + 1)),
    decreases s.len(),
{
    reveal(stands_at);
    if s.len() == 0 {
        assert(escape(s) =~= Seq::<char>::empty());
        assert((escape(s) + seq!['"'])[0] == '"');
    } else {
        let c = s[0];
        let r = s.drop_first();
        let e = escape_char(c);
        assert(escape(s) == e + escape(r));
        assert(escape(s) + seq!['"'] =~= e + (escape(r) + seq!['"']));
        lemma_stands_split(t, i, e, escape(r) + seq!['"']);
        lemma_string_body_escape(t, i + e.len(), r);
        assert(t[i + 0] == e[0]);
        if e.len() == 2 {
            assert(t[i + 1] == e[1]);
            assert(unescape(e[1]) == Some(c));
        }
        assert(seq![c] + r =~= s);
    }
}

/// A JSON string after whitespace reads back as its value.
#[verifier::spinoff_prover]
proof fn lemma_value_reads(t: Seq<char>, i: int, w: Seq<char>, s: Seq<char>)
    requires
        stands_at(t, i, w + json_string(s)),
        all_ws(w),
    ensures
        value(t, i) == Some((s, i + w.len() + json_string(s).len())),
{
    reveal(stands_at);
    lemma_stands_split(t, i, w, json_string(s));
    let j = i + w.len();
    assert(json_string(s) =~= seq!['"'] + (escape(s) + seq!['"']));
    lemma_stands_split(t, j, seq!['"'], escape(s) + seq!['"']);
    assert(t[j + 0] == seq!['"'][0]);
    lemma_skip_ws_over(t, i, w);
    lemma_string_body_escape(t, j + 1, s);
}

/// A character after whitespace reads as that token.
#[verifier::spinoff_prover]
proof fn lemma_token_reads(t: Seq<char>, i: int, w: Seq<char>, c: char)
    requires
        stands_at(t, i, w + seq![c]),
        all_ws(w),
        !is_ws(c),
    ensures
        token(t, i, c) == Some(i + w.len() + 1),
{
    reveal(stands_at);
    lemma_stands_split(t, i, w, seq![c]);
    assert(t[i + w.len() + 0] == seq![c][0]);
    lemma_skip_ws_over(t, i, w);
}

/// Another character after whitespace is not the token `c`.
#[verifier::spinoff_prover]
proof fn lemma_token_other(t: Seq<char>, i: int, w: Seq<char>, c: char, d: char)
    requires
        stands_at(t, i, w + seq![d]),
        all_ws(w),
        !is_ws(d),
        c != d,
    ensures
        token(t, i, c) is None,
{
    reveal(stands_at);
    lemma_stands_split(t, i, w, seq![d]);
    assert(t[i + w.len() + 0] == seq![d][0]);
    lemma_skip_ws_over(t, i, w);
}

/// A key written as a JSON string after whitespace, with its colon, reads as
/// that key.
#[verifier::spinoff_prover]
proof fn lemma_key_reads(t: Seq<char>, i: int, w: Seq<char>, k: Seq<char>)
    requires
        stands_at(t, i, w + json_string(k) + seq![':']),
        all_ws(w),
    ensures
        key(t, i, k) == Some(i + w.len() + json_string(k).len() + 1),
{
    lemma_stands_split(t, i, w + json_string(k), seq![':']);
    lemma_value_reads(t, i, w, k);
    let e = i + w.len() + json_string(k).len();
    assert(Seq::<char>::empty() + seq![':'] =~= seq![':']);
    assert forall|m: int| 0 <= m < Seq::<char>::empty().len() implies is_ws(#[trigger] Seq::<char>::empty()[m]) by {}
    lemma_token_reads(t, e, Seq::empty(), ':');
}

/// Characters that JSON strings write as they are.
pub open spec fn is_plain(s: Seq<char>) -> bool {
    forall|k: int|
        0 <= k < s.len() ==> {
            let c = #[trigger] s[k];
            c != '\\' && c != '"' && c != '\n' && c != '\r' && c != '\t'
        }
}

/// Plain characters are written as they are.
#[verifier::spinoff_prover]
proof fn lemma_escape_plain(s: Seq<char>)
    requires
        is_plain(s),
    ensures
        escape(s) == s,
    decreases s.len(),
{
    if s.len() > 0 {
        let r = s.drop_first();
        assert forall|k: int| 0 <= k < r.len() implies {
            let c = #[trigger] r[k];
            c != '\\' && c != '"' && c != '\n' && c != '\r' && c != '\t'
        } by {
            assert(r[k] == s[k + 1]);
        }
        lemma_escape_plain(r);
        assert(escape_char(s[0]) == seq![s[0]]);
        assert(seq![s[0]] + r =~= s);
    }
}

/// Whitespace of `n` spaces after a newline.
pub open spec fn indent(n: nat) -> Seq<char> {
    seq!['\n'] + Seq::new(n, |k: int| ' ')
}

/// An indent is whitespace.
#[verifier::spinoff_prover]
proof fn lemma_indent_ws(n: nat)
    ensures
        all_ws(indent(n)),
        all_ws(Seq::new(n, |k: int| ' ')),
{
    assert forall|k: int| 0 <= k < indent(n).len() implies is_ws(#[trigger] indent(n)[k]) by {
        if k > 0 {
            assert(indent(n)[k] == Seq::new(n, |k: int| ' ')[k - 1]);
        }
    }
}

/// The text of a dependency before what follows it.
pub open spec fn dependency_body(d: DependencyView) -> Seq<char> {
    "   "@ + json_string(d.name) + ": {\n"@ + "    \"version\": "@ + json_string(d.version) + (
    match d.ignore_version {
        Some(iv) => ",\n"@ + "    \"ignore-version\": "@ + json_string(iv),
        None => Seq::empty(),
    }) + "\n"@ + "   }"@
}

/// The optional version to ignore of a dependency, as read.
pub open spec fn ignore_layout(d: DependencyView) -> Seq<char> {
    match d.ignore_version {
        Some(iv) => seq![','] + (indent(4) + json_string(ignore_version_key()) + seq![':']) + (
        seq![' '] + json_string(iv)),
        None => Seq::empty(),
    }
}

/// The text of a dependency, in the pieces that reading takes it in.
pub open spec fn dependency_layout(d: DependencyView) -> Seq<char> {
    Seq::new(3, |k: int| ' ') + json_string(d.name) + seq![':'] + seq![' ', '{'] + (indent(4)
        + json_string(version_key()) + seq![':']) + (seq![' '] + json_string(d.version))
        + ignore_layout(d) + (indent(3) + seq!['}'])
}

/// The keys of a dependency are written as they are.
#[verifier::spinoff_prover]
proof fn lemma_dependency_keys_plain()
    ensures
        json_string(version_key()) == seq!['"'] + version_key() + seq!['"'],
        json_string(ignore_version_key()) == seq!['"'] + ignore_version_key() + seq!['"'],
{
    assert(is_plain(version_key()));
    assert(is_plain(ignore_version_key()));
    lemma_escape_plain(version_key());
    lemma_escape_plain(ignore_version_key());
}

/// The text of a dependency is its layout.
#[verifier::spinoff_prover]
proof fn lemma_dependency_layout(d: DependencyView)
    ensures
        dependency_body(d) == dependency_layout(d),
{
    reveal_strlit("   ");
    reveal_strlit(": {\n");
    reveal_strlit("    \"version\": ");
    reveal_strlit(",\n");
    reveal_strlit("    \"ignore-version\": ");
    reveal_strlit("\n");
    reveal_strlit("   }");
    lemma_dependency_keys_plain();
    assert(dependency_body(d) =~= dependency_layout(d));
}

/// The empty whitespace before a token that follows at once.
#[verifier::spinoff_prover]
proof fn lemma_no_ws(t: Seq<char>, i: int, c: char)
    requires
        stands_at(t, i, seq![c]),
    ensures
        stands_at(t, i, Seq::<char>::empty() + seq![c]),
        all_ws(Seq::<char>::empty()),
{
    assert(Seq::<char>::empty() + seq![c] =~= seq![c]);
}

/// A dependency as a record.
pub open spec fn triple_of(d: DependencyView) -> Triple {
    (d.name, d.version, d.ignore_version)
}

/// The text of a dependency after whitespace reads back as its record.
#[verifier::spinoff_prover]
proof fn lemma_entry_reads(t: Seq<char>, i: int, w: Seq<char>, d: DependencyView, kind: Record)
    requires
        kind != Record::Library,
        all_ws(w),
        stands_at(t, i, w + dependency_layout(d)),
    ensures
        entry(t, i, kind) == Some((triple_of(d), i + w.len() + dependency_layout(d).len())),
{
    let sp3 = Seq::new(3, |k: int| ' ');
    let j1 = json_string(d.name);
    let k1 = indent(4) + json_string(version_key()) + seq![':'];
    let v1 = seq![' '] + json_string(d.version);
    let ig = ignore_layout(d);
    let e1 = indent(3) + seq!['}'];
    let whole = w + dependency_layout(d);
    lemma_indent_ws(3);
    lemma_indent_ws(4);
    // The name.
    let w0 = w + sp3;
    assert(all_ws(w0)) by {
        assert forall|k: int| 0 <= k < w0.len() implies is_ws(#[trigger] w0[k]) by {
            if k < w.len() {
                assert(w0[k] == w[k]);
            } else {
                assert(w0[k] == sp3[k - w.len()]);
            }
        }
    }
    let rest1 = seq![':'] + seq![' ', '{'] + k1 + v1 + ig + e1;
    assert(whole =~= (w0 + j1) + rest1);
    lemma_stands_split(t, i, w0 + j1, rest1);
    lemma_value_reads(t, i, w0, d.name);
    let a = i + w0.len() + j1.len();
    // The colon and the brace.
    let rest2 = seq![' ', '{'] + k1 + v1 + ig + e1;
    assert(rest1 =~= seq![':'] + rest2);
    lemma_stands_split(t, a, seq![':'], rest2);
    lemma_no_ws(t, a, ':');
    lemma_token_reads(t, a, Seq::empty(), ':');
    let b = a + 1;
    let rest3 = k1 + v1 + ig + e1;
    assert(rest2 =~= (seq![' '] + seq!['{']) + rest3);
    lemma_stands_split(t, b, seq![' '] + seq!['{'], rest3);
    assert(all_ws(seq![' ']));
    lemma_token_reads(t, b, seq![' '], '{');
    let c = b + 2;
    // The version.
    let rest4 = v1 + ig + e1;
    assert(rest3 =~= k1 + rest4);
    lemma_stands_split(t, c, k1, rest4);
    lemma_key_reads(t, c, indent(4), version_key());
    let dd = c + k1.len();
    let rest5 = ig + e1;
    assert(rest4 =~= v1 + rest5);
    lemma_stands_split(t, dd, v1, rest5);
    lemma_value_reads(t, dd, seq![' '], d.version);
    let e = dd + v1.len();
    lemma_stands_split(t, e, ig, e1);
    let pe = e + ig.len();
    lemma_token_reads(t, pe, indent(3), '}');
    match d.ignore_version {
        Some(iv) => {
            let k2 = indent(4) + json_string(ignore_version_key()) + seq![':'];
            let v2 = seq![' '] + json_string(iv);
            assert(ig =~= seq![','] + (k2 + v2));
            lemma_stands_split(t, e, seq![','], k2 + v2);
            lemma_no_ws(t, e, ',');
            lemma_token_reads(t, e, Seq::empty(), ',');
            lemma_stands_split(t, e + 1, k2, v2);
            lemma_key_reads(t, e + 1, indent(4), ignore_version_key());
            lemma_value_reads(t, e + 1 + k2.len(), seq![' '], iv);
        },
        None => {
            assert(pe == e);
            lemma_token_other(t, e, indent(3), ',', '}');
        },
    }
}

/// What follows the text of a dependency.
pub open spec fn item_tail(has_next: bool) -> Seq<char> {
    if has_next {
        ",\n"@
    } else {
        "\n"@
    }
}

/// The text of a dependency is its layout and what follows it.
#[verifier::spinoff_prover]
proof fn lemma_dependency_text(d: DependencyView, has_next: bool)
    ensures
        dependency_text(d, has_next) == dependency_layout(d) + item_tail(has_next),
{
    lemma_dependency_layout(d);
}

/// The text of dependencies, from the front: the first one, then the others.
#[verifier::spinoff_prover]
proof fn lemma_dependencies_text_front(ds: Seq<DependencyView>, k: int)
    requires
        1 <= k <= ds.len(),
    ensures
        dependencies_text(ds, k) == dependency_text(ds[0], ds.len() != 1) + dependencies_text(
            ds.drop_first(),
            k - 1,
        ),
    decreases k,
{
    let r = ds.drop_first();
    if k == 1 {
        assert(dependencies_text(ds, 0) =~= Seq::<char>::empty());
        assert(dependencies_text(r, 0) =~= Seq::<char>::empty());
        assert(dependencies_text(ds, 1) =~= dependency_text(ds[0], ds.len() != 1) + dependencies_text(r, 0));
    } else {
        lemma_dependencies_text_front(ds, k - 1);
        assert(r[k - 2] == ds[k - 1]);
        assert((k - 1 != r.len()) == (k != ds.len()));
        let a = dependency_text(ds[0], ds.len() != 1);
        let b = dependencies_text(r, k - 2);
        let c = dependency_text(ds[k - 1], k != ds.len());
        assert(dependencies_text(ds, k) == (a + b) + c);
        assert(dependencies_text(r, k - 1) == b + c);
        assert((a + b) + c =~= a + (b + c));
    }
}

/// Two spaces.
pub open spec fn two_spaces() -> Seq<char> {
    Seq::new(2, |k: int| ' ')
}

/// The records of dependencies.
pub open spec fn triples_of(ds: Seq<DependencyView>) -> Seq<Triple> {
    ds.map_values(|d: DependencyView| triple_of(d))
}

/// The text of dependencies, each after a newline, closed by an indented
/// brace, reads back as their records.
#[verifier::spinoff_prover]
proof fn lemma_record_list_reads(t: Seq<char>, i: int, kind: Record, ds: Seq<DependencyView>)
    requires
        kind != Record::Library,
        ds.len() >= 1,
        stands_at(
            t,
            i,
            seq!['\n'] + dependencies_text(ds, ds.len() as int) + two_spaces() + seq!['}'],
        ),
    ensures
        record_list(t, i, kind) == Some(
            (triples_of(ds), i + 1 + dependencies_text(ds, ds.len() as int).len() + 3),
        ),
    decreases ds.len(),
{
    let n = ds.len() as int;
    let r = ds.drop_first();
    let has_next = n != 1;
    let lay = dependency_layout(ds[0]);
    let tail = item_tail(has_next);
    let others = dependencies_text(r, n - 1);
    lemma_dependencies_text_front(ds, n);
    lemma_dependency_text(ds[0], has_next);
    let whole = seq!['\n'] + dependencies_text(ds, n) + two_spaces() + seq!['}'];
    assert(whole =~= (seq!['\n'] + lay) + (tail + others + two_spaces() + seq!['}']));
    lemma_stands_split(t, i, seq!['\n'] + lay, tail + others + two_spaces() + seq!['}']);
    assert(all_ws(seq!['\n']));
    lemma_entry_reads(t, i, seq!['\n'], ds[0], kind);
    let j = i + 1 + lay.len();
    let after = tail + others + two_spaces() + seq!['}'];
    reveal_strlit(",\n");
    reveal_strlit("\n");
    assert(triples_of(ds) =~= seq![triple_of(ds[0])] + triples_of(r));
    if has_next {
        assert(after =~= seq![','] + (seq!['\n'] + others + two_spaces() + seq!['}']));
        lemma_stands_split(t, j, seq![','], seq!['\n'] + others + two_spaces() + seq!['}']);
        lemma_no_ws(t, j, ',');
        lemma_token_reads(t, j, Seq::empty(), ',');
        lemma_record_list_reads(t, j + 1, kind, r);
    } else {
        assert(r.len() == 0);
        assert(others =~= Seq::<char>::empty());
        assert(after =~= indent(2) + seq!['}']);
        lemma_indent_ws(2);
        lemma_token_other(t, j, indent(2), ',', '}');
        lemma_token_reads(t, j, indent(2), '}');
        assert(triples_of(r) =~= Seq::<Triple>::empty());
        assert(seq![triple_of(ds[0])] + triples_of(r) =~= seq![triple_of(ds[0])]);
    }
}

/// Where the text of some dependencies follows a newline, no closing brace
/// follows.
#[verifier::spinoff_prover]
proof fn lemma_no_close_before_records(t: Seq<char>, j: int, ds: Seq<DependencyView>)
    requires
        ds.len() >= 1,
        stands_at(t, j, seq!['\n'] + dependencies_text(ds, ds.len() as int)),
    ensures
        token(t, j, '}') is None,
{
    reveal(stands_at);
    let n = ds.len() as int;
    lemma_dependencies_text_front(ds, n);
    lemma_dependency_text(ds[0], n != 1);
    let lay = dependency_layout(ds[0]);
    let texts = dependencies_text(ds, n);
    let others = item_tail(n != 1) + dependencies_text(ds.drop_first(), n - 1);
    assert(texts == lay + others);
    lemma_stands_split(t, j, seq!['\n'], texts);
    lemma_stands_split(t, j + 1, lay, others);
    let sp3 = Seq::new(3, |k: int| ' ');
    let name = sp3 + json_string(ds[0].name);
    let lay_rest = seq![':'] + seq![' ', '{'] + (indent(4) + json_string(version_key()) + seq![':'])
        + (seq![' '] + json_string(ds[0].version)) + ignore_layout(ds[0]) + (indent(3) + seq!['}']);
    assert(lay =~= name + lay_rest);
    lemma_stands_split(t, j + 1, name, lay_rest);
    lemma_stands_split(t, j + 1, sp3, json_string(ds[0].name));
    assert(t[j + 0] == seq!['\n'][0]);
    assert(t[j + 4 + 0] == json_string(ds[0].name)[0]);
    let w = indent(3) + seq!['"'];
    assert forall|k: int| 0 <= k < w.len() implies t[j + k] == #[trigger] w[k] by {
        if 1 <= k < 4 {
            assert(t[j + 1 + (k - 1)] == sp3[k - 1]);
        }
    }
    lemma_indent_ws(3);
    lemma_token_other(t, j, indent(3), '}', '"');
}

/// The text of dependencies in braces reads back as their records.
#[verifier::spinoff_prover]
proof fn lemma_record_object_reads(t: Seq<char>, i: int, kind: Record, ds: Seq<DependencyView>)
    requires
        kind != Record::Library,
        stands_at(
            t,
            i,
            seq![' ', '{'] + (seq!['\n'] + dependencies_text(ds, ds.len() as int) + two_spaces()
                + seq!['}']),
        ),
    ensures
        record_object(t, i, kind) == Some(
            (triples_of(ds), i + 2 + 1 + dependencies_text(ds, ds.len() as int).len() + 3),
        ),
{
    let texts = dependencies_text(ds, ds.len() as int);
    let inner = seq!['\n'] + texts + two_spaces() + seq!['}'];
    lemma_stands_split(t, i, seq![' ', '{'], inner);
    assert(seq![' ', '{'] =~= seq![' '] + seq!['{']);
    assert(all_ws(seq![' ']));
    lemma_token_reads(t, i, seq![' '], '{');
    let j = i + 2;
    if ds.len() == 0 {
        assert(texts =~= Seq::<char>::empty());
        assert(inner =~= indent(2) + seq!['}']);
        lemma_indent_ws(2);
        lemma_token_reads(t, j, indent(2), '}');
        assert(triples_of(ds) =~= Seq::<Triple>::empty());
    } else {
        lemma_stands_split(t, j, seq!['\n'] + texts + two_spaces(), seq!['}']);
        lemma_stands_split(t, j, seq!['\n'] + texts, two_spaces());
        lemma_no_close_before_records(t, j, ds);
        lemma_record_list_reads(t, j, kind, ds);
    }
}

/// Dependencies in braces, as read.
pub open spec fn object_layout(ds: Seq<DependencyView>) -> Seq<char> {
    seq![' ', '{'] + (seq!['\n'] + dependencies_text(ds, ds.len() as int) + two_spaces() + seq!['}'])
}

/// The text of a package, in the pieces that reading takes it in.
#[verifier::opaque]
pub open spec fn package_layout(p: PackageView) -> Seq<char> {
    package_head(p.name, p.version) + object_layout(p.dependencies) + seq![','] + (indent(2)
        + json_string(dev_dependencies_json_key()) + seq![':']) + object_layout(p.dev_dependencies)
        + (indent(1) + seq!['}'])
}

/// The keys of a package are written as they are.
#[verifier::spinoff_prover]
proof fn lemma_package_keys_plain()
    ensures
        json_string(version_key()) == seq!['"'] + version_key() + seq!['"'],
        json_string(dependencies_json_key()) == seq!['"'] + dependencies_json_key() + seq!['"'],
        json_string(dev_dependencies_json_key()) == seq!['"'] + dev_dependencies_json_key() + seq![
            '"',
        ],
{
    assert(is_plain(version_key()));
    assert(is_plain(dependencies_json_key()));
    assert(is_plain(dev_dependencies_json_key()));
    lemma_escape_plain(version_key());
    lemma_escape_plain(dependencies_json_key());
    lemma_escape_plain(dev_dependencies_json_key());
}

/// The text of a package is its layout and what follows it.
#[verifier::spinoff_prover]
#[verifier::rlimit(100)]
proof fn lemma_package_text(p: PackageView, has_next: bool)
    ensures
        package_text(p, has_next) == package_layout(p) + item_tail(has_next),
{
    reveal(package_layout);
    reveal(package_head);
    reveal_strlit(" ");
    reveal_strlit(": {\n");
    reveal_strlit("  \"version\": ");
    reveal_strlit(",\n");
    reveal_strlit("  \"dependencies\": {\n");
    reveal_strlit("  },\n");
    reveal_strlit("  \"dev-dependencies\": {\n");
    reveal_strlit("  }\n");
    reveal_strlit(" }");
    reveal_strlit("\n");
    lemma_package_keys_plain();
    let ds = dependencies_text(p.dependencies, p.dependencies.len() as int);
    let dds = dependencies_text(p.dev_dependencies, p.dev_dependencies.len() as int);
    let head = " "@ + json_string(p.name) + ": {\n"@ + "  \"version\": "@ + json_string(p.version)
        + ",\n"@ + "  \"dependencies\": {\n"@;
    let head_l = seq![' '] + json_string(p.name) + seq![':'] + seq![' ', '{'] + (indent(2)
        + json_string(version_key()) + seq![':']) + (seq![' '] + json_string(p.version)) + seq![',']
        + (indent(2) + json_string(dependencies_json_key()) + seq![':']) + seq![' ', '{'] + seq!['\n'];
    assert(head =~= head_l);
    let mid = "  },\n"@ + "  \"dev-dependencies\": {\n"@;
    let mid_l = two_spaces() + seq!['}'] + seq![','] + (indent(2) + json_string(
        dev_dependencies_json_key(),
    ) + seq![':']) + seq![' ', '{'] + seq!['\n'];
    assert(mid =~= mid_l);
    let end = "  }\n"@ + " }"@;
    let end_l = two_spaces() + seq!['}'] + (indent(1) + seq!['}']);
    assert(end =~= end_l);
    assert(package_text(p, has_next) =~= head + ds + mid + dds + end + item_tail(has_next));
    assert(package_layout(p) =~= head_l + ds + mid_l + dds + end_l);
}

/// Records read back as dependencies.
#[verifier::spinoff_prover]
proof fn lemma_triples_back(ds: Seq<DependencyView>)
    ensures
        triples_of(ds).map_values(|r: Triple| crate::reader::dependency_of(r)) == ds,
{
    assert(triples_of(ds).map_values(|r: Triple| crate::reader::dependency_of(r)) =~= ds);
}

/// Where `a` stands and `b` stands after it, `a + b` stands.
#[verifier::spinoff_prover]
proof fn lemma_stands_join(t: Seq<char>, i: int, a: Seq<char>, b: Seq<char>)
    requires
        stands_at(t, i, a),
        stands_at(t, i + a.len(), b),
    ensures
        stands_at(t, i, a + b),
{
    reveal(stands_at);
    assert forall|k: int| 0 <= k < (a + b).len() implies t[i + k] == #[trigger] (a + b)[k] by {
        if k >= a.len() {
            assert(t[i + a.len() + (k - a.len())] == b[k - a.len()]);
        }
    }
}

/// The text of a package up to the key of its dependencies.
#[verifier::opaque]
pub open spec fn package_head(name: Seq<char>, version: Seq<char>) -> Seq<char> {
    seq![' '] + json_string(name) + seq![':'] + seq![' ', '{'] + (indent(2) + json_string(
        version_key(),
    ) + seq![':']) + (seq![' '] + json_string(version)) + seq![','] + (indent(2) + json_string(
        dependencies_json_key(),
    ) + seq![':'])
}

/// Where the name, the version and the key of the dependencies of a package
/// stand after whitespace, they read back.
#[verifier::spinoff_prover]
proof fn lemma_package_head_reads(t: Seq<char>, i: int, w: Seq<char>, name: Seq<char>, version: Seq<char>)
    requires
        all_ws(w),
        stands_at(t, i, w),
        stands_at(t, i + w.len(), package_head(name, version)),
    ensures
        ({
            let a = i + w.len() + 1 + json_string(name).len();
            let d = a + 3 + 3 + json_string(version_key()).len() + 1;
            let f = d + 1 + json_string(version).len() + 1;
            let g = f + 3 + json_string(dependencies_json_key()).len() + 1;
            &&& value(t, i) == Some((name, a))
            &&& token(t, a, ':') == Some(a + 1)
            &&& token(t, a + 1, '{') == Some(a + 3)
            &&& key(t, a + 3, version_key()) == Some(d)
            &&& value(t, d) == Some((version, f - 1))
            &&& token(t, f - 1, ',') == Some(f)
            &&& key(t, f, dependencies_json_key()) == Some(g)
            &&& g == i + w.len() + package_head(name, version).len()
        }),
{
    reveal(package_head);
    let q = i + w.len();
    let j1 = json_string(name);
    let kv = indent(2) + json_string(version_key()) + seq![':'];
    let v1 = seq![' '] + json_string(version);
    let kd = indent(2) + json_string(dependencies_json_key()) + seq![':'];
    let l1 = seq![' '] + j1;
    let l2 = l1 + seq![':'];
    let l3 = l2 + seq![' ', '{'];
    let l4 = l3 + kv;
    let l5 = l4 + v1;
    let l6 = l5 + seq![','];
    lemma_stands_split(t, q, l6, kd);
    lemma_stands_split(t, q, l5, seq![',']);
    lemma_stands_split(t, q, l4, v1);
    lemma_stands_split(t, q, l3, kv);
    lemma_stands_split(t, q, l2, seq![' ', '{']);
    lemma_stands_split(t, q, l1, seq![':']);
    lemma_stands_split(t, q, seq![' '], j1);
    lemma_indent_ws(2);
    let w0 = w + seq![' '];
    assert(all_ws(w0)) by {
        assert forall|k: int| 0 <= k < w0.len() implies is_ws(#[trigger] w0[k]) by {
            if k < w.len() {
                assert(w0[k] == w[k]);
            }
        }
    }
    lemma_stands_join(t, i, w, seq![' ']);
    lemma_stands_join(t, i, w0, j1);
    lemma_value_reads(t, i, w0, name);
    let a = q + l1.len();
    lemma_no_ws(t, a, ':');
    lemma_token_reads(t, a, Seq::empty(), ':');
    assert(seq![' ', '{'] =~= seq![' '] + seq!['{']);
    assert(all_ws(seq![' ']));
    lemma_token_reads(t, a + 1, seq![' '], '{');
    lemma_key_reads(t, q + l3.len(), indent(2), version_key());
    lemma_value_reads(t, q + l4.len(), seq![' '], version);
    lemma_no_ws(t, q + l5.len(), ',');
    lemma_token_reads(t, q + l5.len(), Seq::empty(), ',');
    lemma_key_reads(t, q + l6.len(), indent(2), dependencies_json_key());
}

/// The text of a package after whitespace reads back as the package.
#[verifier::spinoff_prover]
proof fn lemma_package_member_reads(t: Seq<char>, i: int, w: Seq<char>, p: PackageView)
    requires
        all_ws(w),
        stands_at(t, i, w + package_layout(p)),
    ensures
        package_member(t, i) == Some((p, i + w.len() + package_layout(p).len())),
{
    reveal(package_layout);
    reveal(package_member);
    let head = package_head(p.name, p.version);
    let od = object_layout(p.dependencies);
    let kdd = indent(2) + json_string(dev_dependencies_json_key()) + seq![':'];
    let odd = object_layout(p.dev_dependencies);
    let e1 = indent(1) + seq!['}'];
    let l8 = head + od;
    let l9 = l8 + seq![','];
    let l10 = l9 + kdd;
    let l11 = l10 + odd;
    assert(package_layout(p) == l11 + e1) by {
        reveal(package_layout);
    }
    let q = i + w.len();
    lemma_stands_split(t, i, w, l11 + e1);
    lemma_stands_split(t, q, l11, e1);
    lemma_stands_split(t, q, l10, odd);
    lemma_stands_split(t, q, l9, kdd);
    lemma_stands_split(t, q, l8, seq![',']);
    lemma_stands_split(t, q, head, od);
    lemma_package_head_reads(t, i, w, p.name, p.version);
    lemma_record_object_reads(t, q + head.len(), Record::Dependency, p.dependencies);
    let h = q + l8.len();
    lemma_no_ws(t, h, ',');
    lemma_token_reads(t, h, Seq::empty(), ',');
    lemma_indent_ws(1);
    lemma_indent_ws(2);
    lemma_key_reads(t, q + l9.len(), indent(2), dev_dependencies_json_key());
    lemma_record_object_reads(t, q + l10.len(), Record::DevDependency, p.dev_dependencies);
    lemma_token_reads(t, q + l11.len(), indent(1), '}');
    lemma_triples_back(p.dependencies);
    lemma_triples_back(p.dev_dependencies);
}

/// The text of packages, from the front: the first one, then the others.
#[verifier::spinoff_prover]
proof fn lemma_packages_text_front(ps: Seq<PackageView>, k: int)
    requires
        1 <= k <= ps.len(),
    ensures
        packages_text(ps, k) == package_text(ps[0], ps.len() != 1) + packages_text(
            ps.drop_first(),
            k - 1,
        ),
    decreases k,
{
    let r = ps.drop_first();
    if k == 1 {
        assert(packages_text(ps, 0) =~= Seq::<char>::empty());
        assert(packages_text(r, 0) =~= Seq::<char>::empty());
        assert(packages_text(ps, 1) =~= package_text(ps[0], ps.len() != 1) + packages_text(r, 0));
    } else {
        lemma_packages_text_front(ps, k - 1);
        assert(r[k - 2] == ps[k - 1]);
        assert((k - 1 != r.len()) == (k != ps.len()));
        let a = package_text(ps[0], ps.len() != 1);
        let b = packages_text(r, k - 2);
        let c = package_text(ps[k - 1], k != ps.len());
        assert(packages_text(ps, k) == (a + b) + c);
        assert(packages_text(r, k - 1) == b + c);
        assert((a + b) + c =~= a + (b + c));
    }
}

/// The characters of a piece that stands in a text are those of the text.
#[verifier::spinoff_prover]
proof fn lemma_stands_chars(t: Seq<char>, i: int, s: Seq<char>)
    requires
        stands_at(t, i, s),
    ensures
        0 <= i,
        i + s.len() <= t.len(),
        forall|k: int| 0 <= k < s.len() ==> t[i + k] == #[trigger] s[k],
{
    reveal(stands_at);
}

/// Where the text of a package follows a newline, no closing brace follows.
#[verifier::spinoff_prover]
proof fn lemma_no_close_before_package(t: Seq<char>, i: int, p: PackageView)
    requires
        stands_at(t, i, seq!['\n'] + package_layout(p)),
    ensures
        token(t, i, '}') is None,
{
    let lay = package_layout(p);
    lemma_package_layout_start(p);
    lemma_stands_chars(t, i, seq!['\n'] + lay);
    assert((seq!['\n'] + lay)[0] == '\n');
    assert((seq!['\n'] + lay)[1] == lay[0]);
    assert((seq!['\n'] + lay)[2] == lay[1]);
    lemma_stands_three(t, i);
    assert(seq![t[i], t[i + 1], t[i + 2]] =~= seq!['\n', ' '] + seq!['"']);
    assert(all_ws(seq!['\n', ' ']));
    lemma_token_other(t, i, seq!['\n', ' '], '}', '"');
}

/// The text of packages, each after a newline, closed by a brace, reads back as
/// the packages.
#[verifier::spinoff_prover]
proof fn lemma_package_list_reads(t: Seq<char>, i: int, ps: Seq<PackageView>)
    requires
        ps.len() >= 1,
        stands_at(t, i, seq!['\n'] + packages_text(ps, ps.len() as int) + seq!['}']),
    ensures
        package_list(t, i) == Some((ps, i + 1 + packages_text(ps, ps.len() as int).len() + 1)),
        token(t, i, '}') is None,
    decreases ps.len(),
{
    let n = ps.len() as int;
    let r = ps.drop_first();
    let has_next = n != 1;
    let lay = package_layout(ps[0]);
    let tail = item_tail(has_next);
    let others = packages_text(r, n - 1);
    let texts = packages_text(ps, n);
    lemma_packages_text_front(ps, n);
    lemma_package_text(ps[0], has_next);
    assert(texts == (lay + tail) + others);
    lemma_stands_split(t, i, seq!['\n'] + texts, seq!['}']);
    lemma_stands_split(t, i, seq!['\n'], texts);
    lemma_stands_split(t, i + 1, lay + tail, others);
    lemma_stands_split(t, i + 1, lay, tail);
    lemma_stands_join(t, i, seq!['\n'], lay);
    assert(all_ws(seq!['\n']));
    lemma_package_member_reads(t, i, seq!['\n'], ps[0]);
    lemma_no_close_before_package(t, i, ps[0]);
    let j = i + 1 + lay.len();
    let close = i + 1 + texts.len();
    reveal_strlit(",\n");
    reveal_strlit("\n");
    assert(ps =~= seq![ps[0]] + r);
    if has_next {
        assert(tail =~= seq![','] + seq!['\n']);
        lemma_stands_split(t, j, seq![','], seq!['\n']);
        lemma_no_ws(t, j, ',');
        lemma_token_reads(t, j, Seq::empty(), ',');
        lemma_stands_join(t, j + 1, seq!['\n'], others);
        lemma_stands_join(t, j + 1, seq!['\n'] + others, seq!['}']);
        lemma_package_list_reads(t, j + 1, r);
    } else {
        assert(r.len() == 0);
        assert(others =~= Seq::<char>::empty());
        assert(tail =~= seq!['\n']);
        lemma_stands_join(t, j, seq!['\n'], seq!['}']);
        assert(all_ws(seq!['\n']));
        lemma_token_other(t, j, seq!['\n'], ',', '}');
        lemma_token_reads(t, j, seq!['\n'], '}');
    }
}

/// A text stands where it starts.
#[verifier::spinoff_prover]
proof fn lemma_stands_whole(t: Seq<char>)
    ensures
        stands_at(t, 0, t),
{
    reveal(stands_at);
}

/// Three characters of a text stand where they are.
#[verifier::spinoff_prover]
proof fn lemma_stands_three(t: Seq<char>, i: int)
    requires
        0 <= i,
        i + 3 <= t.len(),
    ensures
        stands_at(t, i, seq![t[i], t[i + 1], t[i + 2]]),
{
    reveal(stands_at);
}

/// The object of packages of written dependency info reads back as the
/// packages.
#[verifier::spinoff_prover]
proof fn lemma_package_object_reads(ps: Seq<PackageView>)
    ensures
        package_object(dependency_info_text(ps), 0) == Some(
            (ps, 3 + packages_text(ps, ps.len() as int).len() as int),
        ),
{
    reveal_strlit("{\n");
    reveal_strlit("}\n");
    let t = dependency_info_text(ps);
    let texts = packages_text(ps, ps.len() as int);
    let body = seq!['\n'] + texts + seq!['}'];
    assert(t =~= seq!['{'] + body + seq!['\n']);
    lemma_stands_whole(t);
    lemma_stands_split(t, 0, seq!['{'] + body, seq!['\n']);
    lemma_stands_split(t, 0, seq!['{'], body);
    lemma_no_ws(t, 0, '{');
    lemma_token_reads(t, 0, Seq::empty(), '{');
    if ps.len() == 0 {
        assert(texts =~= Seq::<char>::empty());
        assert(body =~= seq!['\n'] + seq!['}']);
        assert(all_ws(seq!['\n']));
        lemma_token_reads(t, 1, seq!['\n'], '}');
        assert(ps =~= Seq::<PackageView>::empty());
    } else {
        lemma_package_list_reads(t, 1, ps);
    }
}

/// The text of a package starts with a blank and the quote of its name.
#[verifier::spinoff_prover]
proof fn lemma_package_layout_start(p: PackageView)
    ensures
        package_layout(p).len() >= 2,
        package_layout(p)[0] == ' ',
        package_layout(p)[1] == '"',
{
    reveal(package_layout);
    reveal(package_head);
    let head = package_head(p.name, p.version);
    assert(head[1] == json_string(p.name)[0]);
}

/// Dependency info written for any packages reads back as exactly those
/// packages.
#[verifier::spinoff_prover]
pub proof fn written_dependency_info_reads_back(ps: Seq<PackageView>)
    ensures
        dependency_info(dependency_info_text(ps)) == Some(ps),
{
    reveal_strlit("{\n");
    reveal_strlit("}\n");
    let t = dependency_info_text(ps);
    let texts = packages_text(ps, ps.len() as int);
    lemma_package_object_reads(ps);
    let end = 3 + texts.len() as int;
    assert(t.len() == end + 1);
    assert(t[end] == '\n');
    lemma_stands_whole(t);
    assert(t =~= t.subrange(0, end) + seq!['\n']);
    lemma_stands_split(t, 0, t.subrange(0, end), seq!['\n']);
    assert(all_ws(seq!['\n']));
    lemma_skip_ws_over(t, end, seq!['\n']);
}

} // verus!
