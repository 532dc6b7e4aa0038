//! Extract info: where to find the Cargo.toml of each library, and the
//! conversion of Cargo.toml data into package information.
use crate::cargo_toml::{
    cargo_toml_read, converting_cargo_meta_gives_the_package, expected_end_report, write_expected_end_report,
    read_cargo_toml,
};
use crate::dependencies::{dependency_info_text, package_outcome, packages_view, Package, PackageView};
use crate::reader::{dependency_info, extract_info, read_extract_info};
use crate::roundtrip::written_dependency_info_reads_back;
use crate::text::str_eq;
use crate::update::acyclic;
use crate::meta::{
    after_ignoring, failed, lemma_record_loop_reads_fields, lemma_record_outcome_end, lemma_split, succeeded, opt_view, read_record, record_outcome, stuck,
    meta_view, Convert, MetaData, MetaView, Outcome, Range,
};
use std::sync::Arc;
use vstd::prelude::*;

verus! {

/// The name of the node that holds a library.
pub open spec fn library_node() -> Seq<char> {
    seq!['l', 'i', 'b', 'r', 'a', 'r', 'y']
}

/// The property that holds the package name of a library.
pub open spec fn package_key() -> Seq<char> {
    seq!['p', 'a', 'c', 'k', 'a', 'g', 'e']
}

/// The property that holds the url of the Cargo.toml of a library.
pub open spec fn url_key() -> Seq<char> {
    seq!['u', 'r', 'l']
}

/// The property that holds the version to ignore for a library.
pub open spec fn ignore_version_key() -> Seq<char> {
    seq!['i', 'g', 'n', 'o', 'r', 'e', '_', 'v', 'e', 'r', 's', 'i', 'o', 'n']
}

/// Stores extract information.
pub struct Extract {
    /// The package name.
    pub package: Arc<String>,
    /// The url of the Cargo.toml.
    pub url: Arc<String>,
    /// Whether to override the library version to simulate breaking change.
    pub ignore_version: Option<Arc<String>>,
}

/// Extract information as plain values.
pub struct ExtractView {
    pub package: Seq<char>,
    pub url: Seq<char>,
    pub ignore_version: Option<Seq<char>>,
}

impl View for Extract {
    type V = ExtractView;

    open spec fn view(&self) -> ExtractView {
        ExtractView {
            package: self.package@,
            url: self.url@,
            ignore_version: opt_view(self.ignore_version),
        }
    }
}

/// Extract information of several libraries as plain values.
pub open spec fn extracts_view(v: Seq<Extract>) -> Seq<ExtractView> {
    v.map_values(|e: Extract| e@)
}

/// The meta data of a library.
pub open spec fn library_meta(x: ExtractView) -> Seq<MetaView> {
    seq![
        MetaView::StartNode(library_node()),
        MetaView::String(package_key(), x.package),
        MetaView::String(url_key(), x.url),
    ] + match x.ignore_version {
        Some(v) => seq![MetaView::String(ignore_version_key(), v)],
        None => Seq::empty(),
    } + seq![MetaView::EndNode(library_node())]
}

/// The meta data of libraries, one after another.
pub open spec fn libraries_meta(xs: Seq<ExtractView>) -> Seq<MetaView>
    decreases xs.len(),
{
    if xs.len() == 0 {
        Seq::empty()
    } else {
        library_meta(xs[0]) + libraries_meta(xs.drop_first())
    }
}

/// Reading a library node at `pos`: it needs a package name and a url; a version
/// to ignore is optional.
pub open spec fn extract_outcome(data: Seq<MetaView>, pos: int) -> Outcome<ExtractView> {
    let r = record_outcome(data, pos, library_node(), (package_key(), url_key(), ignore_version_key()));
    Outcome {
        stuck: r.stuck,
        ignored: r.ignored,
        result: match r.result {
            Some((e, (a, b, c))) => Some((e, ExtractView { package: a, url: b, ignore_version: c })),
            None => None,
        },
    }
}

impl Extract {
    /// Converts from meta data.
    pub fn from_meta_data(convert: Convert, ignored: &mut Vec<Range>) -> (res: Result<
        (Range, Extract),
        (),
    >)
        requires
            !extract_outcome(convert.data(), convert.offset()).stuck,
        ensures
            ({
                let o = extract_outcome(convert.data(), convert.offset());
                &&& final(ignored)@ == old(ignored)@ + o.ignored
                &&& match res {
                    Ok((r, e)) => r.offset == convert.offset() && o.result == Some(
                        (r.spec_next_offset(), e@),
                    ),
                    Err(()) => o.result is None,
                }
            }),
    {
        proof {
            reveal_strlit("library");
            reveal_strlit("package");
            reveal_strlit("url");
            reveal_strlit("ignore_version");
            assert("library"@ =~= library_node());
            assert("package"@ =~= package_key());
            assert("url"@ =~= url_key());
            assert("ignore_version"@ =~= ignore_version_key());
        }
        match read_record("library", "package", "url", "ignore_version", convert, ignored) {
            Ok((range, (package, url, ignore_version))) => Ok(
                (range, Extract { package, url, ignore_version }),
            ),
            Err(()) => Err(()),
        }
    }
}

/// A library node that was read ends after where it started, within the data.
pub proof fn lemma_extract_outcome_end(data: Seq<MetaView>, pos: int)
    ensures
        extract_outcome(data, pos).result matches Some((e, _)) ==> pos < e <= data.len(),
{
    lemma_record_outcome_end(data, pos, library_node(), (package_key(), url_key(), ignore_version_key()));
}

/// Reads library nodes one after another from `pos` on, after the libraries
/// `acc`; it succeeds where the libraries take up all the data.
pub open spec fn extracts_from(data: Seq<MetaView>, pos: int, acc: Seq<ExtractView>) -> Outcome<
    Seq<ExtractView>,
>
    decreases data.len() - pos,
{
    let x = extract_outcome(data, pos);
    proof {
        lemma_extract_outcome_end(data, pos);
    }
    if x.stuck {
        stuck()
    } else {
        match x.result {
            Some((e, xv)) => after_ignoring(x.ignored, extracts_from(data, e, acc.push(xv))),
            None => Outcome {
                stuck: false,
                ignored: x.ignored,
                result: if pos >= data.len() {
                    Some((pos, acc))
                } else {
                    None
                },
            },
        }
    }
}

/// Converts meta data into extract info.
pub fn convert_extract_info(data: &[MetaData], ignored: &mut Vec<Range>) -> (res: Result<
    Vec<Extract>,
    (),
>)
    requires
        !extracts_from(meta_view(data@), 0, Seq::empty()).stuck,
    ensures
        ({
            let o = extracts_from(meta_view(data@), 0, Seq::empty());
            &&& final(ignored)@ == old(ignored)@ + o.ignored
            &&& match res {
                Ok(v) => o.result matches Some((_, xs)) && xs == extracts_view(v@),
                Err(()) => o.result is None,
            }
        }),
{
    let mut list: Vec<Extract> = Vec::new();
    let mut convert = Convert::new(data);
    let ghost full = extracts_from(meta_view(data@), 0, Seq::empty());
    let ghost mut acc: Seq<Range> = Seq::empty();
    assert(acc + full.ignored =~= full.ignored);
    assert(extracts_view(list@) =~= Seq::<ExtractView>::empty());
    loop
        invariant
            convert.data() == meta_view(data@),
            0 <= convert.offset() <= meta_view(data@).len(),
            ignored@ == old(ignored)@ + acc,
            full == extracts_from(meta_view(data@), 0, Seq::empty()),
            full == after_ignoring(acc, extracts_from(meta_view(data@), convert.offset(), extracts_view(list@))),
            !full.stuck,
        decreases meta_view(data@).len() - convert.offset(),
    {
        let ghost pos = convert.offset();
        let ghost before = extracts_view(list@);
        let ghost x = extract_outcome(meta_view(data@), pos);
        proof {
            lemma_extract_outcome_end(meta_view(data@), pos);
        }
        match Extract::from_meta_data(convert, ignored) {
            Ok((range, extract)) => {
                convert.update(range);
                let ghost xv = extract@;
                list.push(extract);
                proof {
                    assert(extracts_view(list@) =~= before.push(xv));
                    let rest = extracts_from(meta_view(data@), convert.offset(), before.push(xv));
                    assert(acc + (x.ignored + rest.ignored) =~= (acc + x.ignored) + rest.ignored);
                    let ghost acc0 = acc;
                    acc = acc + x.ignored;
                    assert(after_ignoring(acc0, after_ignoring(x.ignored, rest)) =~= after_ignoring(acc, rest));
                }
            },
            Err(()) => {
                assert(full.ignored =~= acc + x.ignored);
                assert(ignored@ =~= old(ignored)@ + (acc + x.ignored));
                if convert.remaining_data_len() > 0 {
                    return Err(());
                } else {
                    return Ok(list);
                }
            },
        }
    }
}

/// Converts meta data into Cargo.toml information: the package node at the
/// start of the data.
pub fn convert_cargo_toml(data: &[MetaData], ignored: &mut Vec<Range>) -> (res: Result<Package, ()>)
    requires
        !package_outcome(meta_view(data@), 0).stuck,
    ensures
        ({
            let o = package_outcome(meta_view(data@), 0);
            &&& final(ignored)@ == old(ignored)@ + o.ignored
            &&& match res {
                Ok(p) => o.result matches Some((_, pv)) && pv == p@,
                Err(()) => o.result is None,
            }
        }),
{
    match Package::from_meta_data(Convert::new(data), ignored) {
        Ok((_, package)) => Ok(package),
        Err(()) => Err(()),
    }
}

/// Reading the meta data of a library gives the library back, ignoring nothing.
pub proof fn lemma_extract_outcome_reads(data: Seq<MetaView>, pos: int, x: ExtractView)
    requires
        0 <= pos,
        pos + library_meta(x).len() <= data.len(),
        data.subrange(pos, pos + library_meta(x).len()) == library_meta(x),
    ensures
        extract_outcome(data, pos) == succeeded(pos + library_meta(x).len(), x),
{
    let m = library_meta(x);
    let node = library_node();
    let keys = (package_key(), url_key(), ignore_version_key());
    let rest = seq![MetaView::String(keys.0, x.package), MetaView::String(keys.1, x.url)] + match x.ignore_version {
        Some(v) => seq![MetaView::String(keys.2, v)],
        None => Seq::empty(),
    } + seq![MetaView::EndNode(node)];
    assert(m =~= seq![MetaView::StartNode(node)] + rest);
    lemma_split(data, pos, seq![MetaView::StartNode(node)], rest);
    assert(data[pos] == m[0]);
    lemma_record_loop_reads_fields(data, pos + 1, node, keys, x.package, x.url, x.ignore_version);
}

/// One step of converting libraries.
proof fn lemma_extracts_from_step(data: Seq<MetaView>, pos: int, acc: Seq<ExtractView>, x: ExtractView, next: int)
    requires
        extract_outcome(data, pos) == succeeded(next, x),
    ensures
        extracts_from(data, pos, acc) == after_ignoring(Seq::empty(), extracts_from(data, next, acc.push(x))),
{
}

/// Converting the meta data of libraries gives back the libraries, whatever
/// came before them, and ignores nothing.
pub proof fn lemma_extracts_from_reads(data: Seq<MetaView>, pos: int, acc: Seq<ExtractView>, xs: Seq<ExtractView>)
    requires
        0 <= pos <= data.len(),
        data.subrange(pos, data.len() as int) == libraries_meta(xs),
    ensures
        extracts_from(data, pos, acc) == succeeded(data.len() as int, acc + xs),
    decreases xs.len(),
{
    if xs.len() == 0 {
        assert(acc + xs =~= acc);
        assert(data.subrange(pos, data.len() as int).len() == 0);
        assert(extract_outcome(data, pos) == failed::<ExtractView>());
    } else {
        let xm = library_meta(xs[0]);
        let rest = libraries_meta(xs.drop_first());
        assert(libraries_meta(xs) == xm + rest);
        assert(data.subrange(pos, data.len() as int).len() == data.len() - pos);
        assert(pos + xm.len() + rest.len() == data.len());
        lemma_split(data, pos, xm, rest);
        lemma_extract_outcome_reads(data, pos, xs[0]);
        let next = pos + xm.len();
        lemma_extracts_from_reads(data, next, acc.push(xs[0]), xs.drop_first());
        assert(acc.push(xs[0]) + xs.drop_first() =~= acc + xs);
        let o = extracts_from(data, next, acc.push(xs[0]));
        assert(after_ignoring(Seq::empty(), o) =~= o);
        lemma_extracts_from_step(data, pos, acc, xs[0], next);
    }
}

/// Converting the meta data of libraries gives back exactly those libraries and
/// ignores nothing; it never gets stuck.
pub proof fn converting_library_meta_gives_the_libraries(xs: Seq<ExtractView>)
    ensures
        extracts_from(libraries_meta(xs), 0, Seq::empty()) == succeeded(libraries_meta(xs).len() as int, xs),
{
    let data = libraries_meta(xs);
    assert(data.subrange(0, data.len() as int) =~= data);
    lemma_extracts_from_reads(data, 0, Seq::empty(), xs);
    assert(Seq::<ExtractView>::empty() + xs =~= xs);
}

/// The libraries of an extract info document. The text must be an extract info
/// document (a caller tests that with `read_extract_info` and stops where it is
/// not); converting what it holds then never fails.
pub fn extract_info_list(extract_info_text: &str) -> (r: Result<Vec<Extract>, String>)
    requires
        extract_info(extract_info_text@) is Some,
    ensures
        r matches Ok(v) && extracts_view(v@) == extract_info(extract_info_text@)->Some_0,
{
    let ghost xs = extract_info(extract_info_text@)->Some_0;
    let extract_data = match read_extract_info(extract_info_text) {
        Some(data) => data,
        None => {
            return Err(String::new());
        },
    };
    proof {
        converting_library_meta_gives_the_libraries(xs);
    }
    let mut ignored: Vec<Range> = Vec::new();
    match convert_extract_info(extract_data.as_slice(), &mut ignored) {
        Ok(list) => Ok(list),
        Err(()) => Err(String::from_str("Could not convert extract data")),
    }
}

/// The message for a Cargo.toml of library `x` that could not be read: a first
/// line naming the library and the url, then `report`.
pub open spec fn syntax_error_text(x: ExtractView, report: Seq<char>) -> Seq<char> {
    x.package + ": Syntax error in Cargo.toml for url `"@ + x.url + "`\n"@ + report
}

/// The message for the Cargo.toml `config` of library `x`, whose line at `p`
/// could not be read: piston_meta's report of where reading stopped before the
/// end, after a line naming the library and the url.
pub open spec fn syntax_error_message(x: ExtractView, config: Seq<char>, p: int) -> Seq<char> {
    syntax_error_text(x, expected_end_report(config, p as nat))
}

/// Writes the message for a Cargo.toml of library `extract` that could not be
/// read, with the report of the error.
pub fn syntax_error(extract: &Extract, report: &str) -> (e: String)
    ensures
        e@ == syntax_error_text(extract@, report@),
{
    let mut e = String::new();
    e.append(extract.package.as_str());
    e.append(": Syntax error in Cargo.toml for url `");
    e.append(extract.url.as_str());
    e.append("`\n");
    e.append(report);
    proof {
        reveal_strlit(": Syntax error in Cargo.toml for url `");
        reveal_strlit("`\n");
    }
    assert(e@ =~= syntax_error_text(extract@, report@));
    e
}

/// The message for a Cargo.toml of library `x` without a package name or
/// version.
pub open spec fn convert_error_message(x: ExtractView) -> Seq<char> {
    "Could not convert Cargo.toml data for url `"@ + x.url + "`"@
}

/// The package that the Cargo.toml `config` of library `x` gives: an error
/// where it cannot be read or gives no package name and version; nothing where
/// the library names a version to ignore and the package has another version.
pub open spec fn cargo_toml_package(x: ExtractView, config: Seq<char>) -> Result<
    Option<PackageView>,
    Seq<char>,
> {
    match cargo_toml_read(config) {
        Err(p) => Err(syntax_error_message(x, config, p)),
        Ok(st) => match (st.name, st.version) {
            (Some(n), Some(v)) => {
                let p = PackageView {
                    name: n,
                    version: v,
                    dependencies: st.dependencies,
                    dev_dependencies: st.dev_dependencies,
                };
                match x.ignore_version {
                    Some(iv) => if iv != v {
                        Ok(None)
                    } else {
                        Ok(Some(p))
                    },
                    None => Ok(Some(p)),
                }
            },
            _ => Err(convert_error_message(x)),
        },
    }
}

/// Reads the package of a library from its Cargo.toml `config`.
pub fn package_from_cargo_toml(extract: &Extract, config: &str) -> (r: Result<Option<Package>, String>)
    ensures
        match (r, cargo_toml_package(extract@, config@)) {
            (Ok(Some(p)), Ok(Some(pv))) => p@ == pv,
            (Ok(None), Ok(None)) => true,
            (Err(e), Err(m)) => e@ == m,
            _ => false,
        },
{
    let data = match read_cargo_toml(config) {
        Ok(data) => data,
        Err(p) => {
            let report = write_expected_end_report(config, p);
            return Err(syntax_error(extract, report.as_str()));
        },
    };
    let ghost st = cargo_toml_read(config@)->Ok_0;
    proof {
        converting_cargo_meta_gives_the_package(st);
    }
    let mut ignored: Vec<Range> = Vec::new();
    let package = match convert_cargo_toml(data.as_slice(), &mut ignored) {
        Ok(p) => p,
        Err(()) => {
            let mut e = String::new();
            e.append("Could not convert Cargo.toml data for url `");
            e.append(extract.url.as_str());
            e.append("`");
            proof {
                reveal_strlit("Could not convert Cargo.toml data for url `");
                reveal_strlit("`");
            }
            assert(e@ =~= convert_error_message(extract@));
            return Err(e);
        },
    };
    match &extract.ignore_version {
        Some(ignore_version) => if !str_eq(ignore_version.as_str(), package.version.as_str()) {
            Ok(None)
        } else {
            Ok(Some(package))
        },
        None => Ok(Some(package)),
    }
}

/// A fetched text or the message why it could not be fetched, as characters.
pub open spec fn fetched_view(r: Result<String, String>) -> Result<Seq<char>, Seq<char>> {
    match r {
        Ok(s) => Ok(s@),
        Err(e) => Err(e@),
    }
}

/// The packages that the first `k` libraries `xs` give, from their fetched
/// Cargo.toml texts `configs`, in the order of the libraries; the first error
/// met, if any.
pub open spec fn collect_packages(
    xs: Seq<ExtractView>,
    configs: Seq<Result<Seq<char>, Seq<char>>>,
    k: int,
) -> Result<Seq<PackageView>, Seq<char>>
    decreases k,
{
    if k <= 0 {
        Ok(Seq::empty())
    } else {
        match collect_packages(xs, configs, k - 1) {
            Err(e) => Err(e),
            Ok(ps) => match configs[k - 1] {
                Err(e) => Err(e),
                Ok(c) => match cargo_toml_package(xs[k - 1], c) {
                    Err(e) => Err(e),
                    Ok(None) => Ok(ps),
                    Ok(Some(p)) => Ok(ps.push(p)),
                },
            },
        }
    }
}

/// Once an error is met, it stays the result.
pub proof fn lemma_collect_packages_err(
    xs: Seq<ExtractView>,
    configs: Seq<Result<Seq<char>, Seq<char>>>,
    j: int,
    k: int,
)
    requires
        1 <= j <= k,
        collect_packages(xs, configs, j) is Err,
    ensures
        collect_packages(xs, configs, k) == collect_packages(xs, configs, j),
    decreases k - j,
{
    if j < k {
        lemma_collect_packages_err(xs, configs, j, k - 1);
    }
}

/// Writes the dependency info of the libraries `extracts`, given the texts of
/// their Cargo.toml files as fetched (`configs[i]` for `extracts[i]`, or the
/// message why it could not be fetched): the packages in the order of the
/// libraries, or the first error met.
pub fn dependency_info_from_configs(extracts: &[Extract], configs: &[Result<String, String>]) -> (r: Result<
    String,
    String,
>)
    requires
        configs@.len() == extracts@.len(),
    ensures
        match (
            r,
            collect_packages(
                extracts_view(extracts@),
                configs@.map_values(|c: Result<String, String>| fetched_view(c)),
                extracts@.len() as int,
            ),
        ) {
            (Ok(s), Ok(ps)) => s@ == dependency_info_text(ps) && dependency_info(s@) == Some(ps),
            (Err(e), Err(m)) => e@ == m,
            _ => false,
        },
{
    let ghost xs = extracts_view(extracts@);
    let ghost cs = configs@.map_values(|c: Result<String, String>| fetched_view(c));
    let n = extracts.len();
    let mut packages: Vec<Package> = Vec::new();
    let mut i: usize = 0;
    assert(packages_view(packages@) =~= Seq::<PackageView>::empty());
    while i < n
        invariant
            n == extracts@.len(),
            n == configs@.len(),
            xs == extracts_view(extracts@),
            cs == configs@.map_values(|c: Result<String, String>| fetched_view(c)),
            i <= n,
            collect_packages(xs, cs, i as int) == Ok::<_, Seq<char>>(packages_view(packages@)),
        decreases n - i,
    {
        assert(xs[i as int] == extracts[i as int]@);
        assert(cs[i as int] == fetched_view(configs[i as int]));
        match &configs[i] {
            Err(e) => {
                proof {
                    lemma_collect_packages_err(xs, cs, i + 1, n as int);
                }
                return Err(e.clone());
            },
            Ok(config) => match package_from_cargo_toml(&extracts[i], config.as_str()) {
                Err(e) => {
                    proof {
                        lemma_collect_packages_err(xs, cs, i + 1, n as int);
                    }
                    return Err(e);
                },
                Ok(None) => {},
                Ok(Some(p)) => {
                    let ghost before = packages_view(packages@);
                    packages.push(p);
                    assert(packages_view(packages@) =~= before.push(p@));
                },
            },
        }
        i = i + 1;
    }
    let mut res = String::new();
    crate::dependencies::write(packages.as_slice(), &mut res);
    assert(res@ =~= dependency_info_text(packages_view(packages@)));
    proof {
        written_dependency_info_reads_back(packages_view(packages@));
    }
    Ok(res)
}

/// Dependency info written from fetched Cargo.toml files, whose packages form
/// no dependency cycle (and are fewer than `u32::MAX`), meets what generating
/// update info requires: it reads back as those packages. Generating then gives
/// update info or the error of a version that cannot be read, never a
/// conversion error.
pub proof fn extracted_info_can_be_updated(
    xs: Seq<ExtractView>,
    configs: Seq<Result<Seq<char>, Seq<char>>>,
    ps: Seq<PackageView>,
)
    requires
        collect_packages(xs, configs, xs.len() as int) == Ok::<_, Seq<char>>(ps),
        acyclic(ps),
        ps.len() < u32::MAX,
    ensures
        dependency_info(dependency_info_text(ps)) == Some(ps),
        acyclic(dependency_info(dependency_info_text(ps))->Some_0),
        dependency_info(dependency_info_text(ps))->Some_0.len() < u32::MAX,
{
    written_dependency_info_reads_back(ps);
}

} // verus!
