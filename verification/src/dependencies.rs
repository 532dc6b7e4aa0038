//! Dependency info: the packages of an ecosystem with their versions and
//! dependencies.
use crate::text::{json_string, write_json_string};
use crate::meta::{
    after_ignoring, any_end_at, end_at, failed, ignore_len, ignored_range, lemma_close_len_bounds,
    lemma_record_loop_reads_fields, lemma_record_outcome_end, lemma_split, opt_view, read_record, succeeded, record_outcome, start_at, string_at, stuck,
    meta_view, Convert, MetaData, MetaView, Outcome, Range,
};
use std::sync::Arc;
use vstd::prelude::*;

verus! {

/// The name of the node that holds a package.
pub open spec fn package_node() -> Seq<char> {
    seq!['p', 'a', 'c', 'k', 'a', 'g', 'e']
}

/// The name of the node that holds a dependency.
pub open spec fn dependency_node() -> Seq<char> {
    seq!['d', 'e', 'p', 'e', 'n', 'd', 'e', 'n', 'c', 'y']
}

/// The name of the node that holds a dev dependency.
pub open spec fn dev_dependency_node() -> Seq<char> {
    seq!['d', 'e', 'v', '_', 'd', 'e', 'p', 'e', 'n', 'd', 'e', 'n', 'c', 'y']
}

/// The property that holds a name.
pub open spec fn name_key() -> Seq<char> {
    seq!['n', 'a', 'm', 'e']
}

/// The property that holds a version.
pub open spec fn version_key() -> Seq<char> {
    seq!['v', 'e', 'r', 's', 'i', 'o', 'n']
}

/// The property that holds a version to ignore.
pub open spec fn ignore_version_key() -> Seq<char> {
    seq!['i', 'g', 'n', 'o', 'r', 'e', '-', 'v', 'e', 'r', 's', 'i', 'o', 'n']
}

/// Stores dependency information.
pub struct Dependency {
    /// The package name.
    pub name: Arc<String>,
    /// The semver version of the library.
    pub version: Arc<String>,
    /// A version to ignore.
    pub ignore_version: Option<Arc<String>>,
}

/// A dependency as plain values.
pub struct DependencyView {
    pub name: Seq<char>,
    pub version: Seq<char>,
    pub ignore_version: Option<Seq<char>>,
}

impl View for Dependency {
    type V = DependencyView;

    open spec fn view(&self) -> DependencyView {
        DependencyView {
            name: self.name@,
            version: self.version@,
            ignore_version: opt_view(self.ignore_version),
        }
    }
}

/// Dependencies as plain values.
pub open spec fn deps_view(deps: Seq<Dependency>) -> Seq<DependencyView> {
    deps.map_values(|d: Dependency| d@)
}

/// Stores package information.
pub struct Package {
    /// The package name.
    pub name: Arc<String>,
    /// The version.
    pub version: Arc<String>,
    /// Dependencies.
    pub dependencies: Vec<Dependency>,
    /// Dev dependencies.
    pub dev_dependencies: Vec<Dependency>,
}

/// A package as plain values.
pub struct PackageView {
    pub name: Seq<char>,
    pub version: Seq<char>,
    pub dependencies: Seq<DependencyView>,
    pub dev_dependencies: Seq<DependencyView>,
}

impl View for Package {
    type V = PackageView;

    open spec fn view(&self) -> PackageView {
        PackageView {
            name: self.name@,
            version: self.version@,
            dependencies: deps_view(self.dependencies@),
            dev_dependencies: deps_view(self.dev_dependencies@),
        }
    }
}

/// Packages as plain values.
pub open spec fn packages_view(packages: Seq<Package>) -> Seq<PackageView> {
    packages.map_values(|p: Package| p@)
}

/// The meta data of a dependency in a node called `node`.
pub open spec fn dependency_meta(node: Seq<char>, d: DependencyView) -> Seq<MetaView> {
    seq![
        MetaView::StartNode(node),
        MetaView::String(name_key(), d.name),
        MetaView::String(version_key(), d.version),
    ] + match d.ignore_version {
        Some(v) => seq![MetaView::String(ignore_version_key(), v)],
        None => Seq::empty(),
    } + seq![MetaView::EndNode(node)]
}

/// The meta data of dependencies, each in a node called `node`.
pub open spec fn dependencies_meta(node: Seq<char>, ds: Seq<DependencyView>) -> Seq<MetaView>
    decreases ds.len(),
{
    if ds.len() == 0 {
        Seq::empty()
    } else {
        dependency_meta(node, ds[0]) + dependencies_meta(node, ds.drop_first())
    }
}

/// The meta data of a package.
pub open spec fn package_meta(p: PackageView) -> Seq<MetaView> {
    seq![
        MetaView::StartNode(package_node()),
        MetaView::String(name_key(), p.name),
        MetaView::String(version_key(), p.version),
    ] + dependencies_meta(dependency_node(), p.dependencies) + dependencies_meta(
        dev_dependency_node(),
        p.dev_dependencies,
    ) + seq![MetaView::EndNode(package_node())]
}

/// The meta data of packages, one after another.
pub open spec fn packages_meta(ps: Seq<PackageView>) -> Seq<MetaView>
    decreases ps.len(),
{
    if ps.len() == 0 {
        Seq::empty()
    } else {
        package_meta(ps[0]) + packages_meta(ps.drop_first())
    }
}

/// Reading a dependency node called `node` at `pos`: it needs a name and a
/// version; a version to ignore is optional.
pub open spec fn dependency_outcome(data: Seq<MetaView>, pos: int, node: Seq<char>) -> Outcome<
    DependencyView,
> {
    let r = record_outcome(data, pos, node, (name_key(), version_key(), ignore_version_key()));
    Outcome {
        stuck: r.stuck,
        ignored: r.ignored,
        result: match r.result {
            Some((e, (a, b, c))) => Some(
                (e, DependencyView { name: a, version: b, ignore_version: c }),
            ),
            None => None,
        },
    }
}

impl Dependency {
    /// Converts from meta data.
    pub fn from_meta_data(node: &str, convert: Convert, ignored: &mut Vec<Range>) -> (res: Result<
        (Range, Dependency),
        (),
    >)
        requires
            !dependency_outcome(convert.data(), convert.offset(), node@).stuck,
        ensures
            ({
                let o = dependency_outcome(convert.data(), convert.offset(), node@);
                &&& final(ignored)@ == old(ignored)@ + o.ignored
                &&& match res {
                    Ok((r, d)) => r.offset == convert.offset() && o.result == Some(
                        (r.spec_next_offset(), d@),
                    ),
                    Err(()) => o.result is None,
                }
            }),
    {
        proof {
            reveal_strlit("name");
            reveal_strlit("version");
            reveal_strlit("ignore-version");
            assert("name"@ =~= name_key());
            assert("version"@ =~= version_key());
            assert("ignore-version"@ =~= ignore_version_key());
        }
        match read_record(node, "name", "version", "ignore-version", convert, ignored) {
            Ok((range, (name, version, ignore_version))) => Ok(
                (range, Dependency { name, version, ignore_version }),
            ),
            Err(()) => Err(()),
        }
    }
}

/// The fields of a package, as far as they were read.
pub type PackageFields = (Option<Seq<char>>, Option<Seq<char>>, Seq<DependencyView>, Seq<DependencyView>);

/// Reads the body of a package node from `pos` on, up to its end.
pub open spec fn package_loop(data: Seq<MetaView>, pos: int, f: PackageFields) -> Outcome<
    PackageFields,
>
    decreases data.len() - pos,
{
    if pos < 0 || pos >= data.len() {
        stuck()
    } else if end_at(data, pos, package_node()) {
        Outcome { stuck: false, ignored: Seq::empty(), result: Some((pos + 1, f)) }
    } else if string_at(data, pos, name_key()) is Some {
        package_loop(data, pos + 1, (string_at(data, pos, name_key()), f.1, f.2, f.3))
    } else if string_at(data, pos, version_key()) is Some {
        package_loop(data, pos + 1, (f.0, string_at(data, pos, version_key()), f.2, f.3))
    } else {
        let d = dependency_outcome(data, pos, dependency_node());
        let dd = dependency_outcome(data, pos, dev_dependency_node());
        proof {
            lemma_record_outcome_end(
                data,
                pos,
                dependency_node(),
                (name_key(), version_key(), ignore_version_key()),
            );
            lemma_record_outcome_end(
                data,
                pos,
                dev_dependency_node(),
                (name_key(), version_key(), ignore_version_key()),
            );
            lemma_close_len_bounds(data, pos, 0);
        }
        if d.stuck {
            stuck()
        } else if d.result is Some {
            let (e, dep) = d.result->0;
            after_ignoring(d.ignored, package_loop(data, e, (f.0, f.1, f.2.push(dep), f.3)))
        } else if dd.stuck {
            stuck()
        } else if dd.result is Some {
            let (e, dep) = dd.result->0;
            after_ignoring(
                d.ignored + dd.ignored,
                package_loop(data, e, (f.0, f.1, f.2, f.3.push(dep))),
            )
        } else if any_end_at(data, pos) {
            stuck()
        } else {
            let l = ignore_len(data, pos);
            after_ignoring(
                d.ignored + dd.ignored + seq![ignored_range(pos, l)],
                package_loop(data, pos + l, f),
            )
        }
    }
}

/// Reading a package node at `pos`: it needs a name and a version.
pub open spec fn package_outcome(data: Seq<MetaView>, pos: int) -> Outcome<PackageView> {
    if !start_at(data, pos, package_node()) {
        failed()
    } else {
        let r = package_loop(data, pos + 1, (None, None, Seq::empty(), Seq::empty()));
        Outcome {
            stuck: r.stuck,
            ignored: r.ignored,
            result: match r.result {
                Some((e, (Some(n), Some(v), ds, dds))) => Some(
                    (
                        e,
                        PackageView {
                            name: n,
                            version: v,
                            dependencies: ds,
                            dev_dependencies: dds,
                        },
                    ),
                ),
                _ => None,
            },
        }
    }
}

/// A package that was read ends after where it started, within the data.
pub proof fn lemma_package_loop_end(data: Seq<MetaView>, pos: int, f: PackageFields)
    ensures
        package_loop(data, pos, f).result matches Some((e, _)) ==> pos < e <= data.len(),
    decreases data.len() - pos,
{
    if pos < 0 || pos >= data.len() {
    } else if end_at(data, pos, package_node()) {
    } else if string_at(data, pos, name_key()) is Some {
        lemma_package_loop_end(data, pos + 1, (string_at(data, pos, name_key()), f.1, f.2, f.3));
    } else if string_at(data, pos, version_key()) is Some {
        lemma_package_loop_end(data, pos + 1, (f.0, string_at(data, pos, version_key()), f.2, f.3));
    } else {
        let d = dependency_outcome(data, pos, dependency_node());
        let dd = dependency_outcome(data, pos, dev_dependency_node());
        lemma_record_outcome_end(
            data,
            pos,
            dependency_node(),
            (name_key(), version_key(), ignore_version_key()),
        );
        lemma_record_outcome_end(
            data,
            pos,
            dev_dependency_node(),
            (name_key(), version_key(), ignore_version_key()),
        );
        lemma_close_len_bounds(data, pos, 0);
        if d.stuck {
        } else if d.result is Some {
            let (e, dep) = d.result->0;
            lemma_package_loop_end(data, e, (f.0, f.1, f.2.push(dep), f.3));
        } else if dd.stuck {
        } else if dd.result is Some {
            let (e, dep) = dd.result->0;
            lemma_package_loop_end(data, e, (f.0, f.1, f.2, f.3.push(dep)));
        } else if any_end_at(data, pos) {
        } else {
            lemma_package_loop_end(data, pos + ignore_len(data, pos), f);
        }
    }
}

/// A package node that was read ends after where it started, within the data.
pub proof fn lemma_package_outcome_end(data: Seq<MetaView>, pos: int)
    ensures
        package_outcome(data, pos).result matches Some((e, _)) ==> pos < e <= data.len(),
{
    if start_at(data, pos, package_node()) {
        lemma_package_loop_end(data, pos + 1, (None, None, Seq::empty(), Seq::empty()));
    }
}

impl Package {
    /// Converts from meta data.
    pub fn from_meta_data(convert: Convert, ignored: &mut Vec<Range>) -> (res: Result<
        (Range, Package),
        (),
    >)
        requires
            !package_outcome(convert.data(), convert.offset()).stuck,
        ensures
            ({
                let o = package_outcome(convert.data(), convert.offset());
                &&& final(ignored)@ == old(ignored)@ + o.ignored
                &&& match res {
                    Ok((r, p)) => r.offset == convert.offset() && o.result == Some(
                        (r.spec_next_offset(), p@),
                    ),
                    Err(()) => o.result is None,
                }
            }),
    {
        proof {
            reveal_strlit("package");
            reveal_strlit("name");
            reveal_strlit("version");
            reveal_strlit("dependency");
            reveal_strlit("dev_dependency");
            assert("package"@ =~= package_node());
            assert("name"@ =~= name_key());
            assert("version"@ =~= version_key());
            assert("dependency"@ =~= dependency_node());
            assert("dev_dependency"@ =~= dev_dependency_node());
        }
        let ghost data = convert.data();
        let start = convert;
        let mut convert = convert;
        convert.lemma_bounds();
        let node = "package";
        let start_range = match convert.start_node(node) {
            Ok(r) => r,
            Err(()) => {
                assert(old(ignored)@ + Seq::<Range>::empty() =~= old(ignored)@);
                return Err(());
            },
        };
        convert.update(start_range);
        let mut name: Option<Arc<String>> = None;
        let mut version: Option<Arc<String>> = None;
        let mut dependencies: Vec<Dependency> = Vec::new();
        let mut dev_dependencies: Vec<Dependency> = Vec::new();
        let ghost full = package_loop(data, start.offset() + 1, (None, None, Seq::empty(), Seq::empty()));
        let ghost mut acc: Seq<Range> = Seq::empty();
        assert(acc + full.ignored =~= full.ignored);
        assert(deps_view(dependencies@) =~= Seq::<DependencyView>::empty());
        assert(deps_view(dev_dependencies@) =~= Seq::<DependencyView>::empty());
        loop
            invariant_except_break
                node@ == package_node(),
                "name"@ == name_key(),
                "version"@ == version_key(),
                "dependency"@ == dependency_node(),
                "dev_dependency"@ == dev_dependency_node(),
                convert.data() == data,
                start.data() == data,
                start.offset() < convert.offset() <= data.len(),
                ignored@ == old(ignored)@ + acc,
                full == after_ignoring(
                    acc,
                    package_loop(
                        data,
                        convert.offset(),
                        (
                            opt_view(name),
                            opt_view(version),
                            deps_view(dependencies@),
                            deps_view(dev_dependencies@),
                        ),
                    ),
                ),
                !full.stuck,
            ensures
                convert.data() == data,
                start.offset() < convert.offset() <= data.len(),
                ignored@ == old(ignored)@ + acc,
                full == after_ignoring(
                    acc,
                    Outcome {
                        stuck: false,
                        ignored: Seq::empty(),
                        result: Some(
                            (
                                convert.offset(),
                                (
                                    opt_view(name),
                                    opt_view(version),
                                    deps_view(dependencies@),
                                    deps_view(dev_dependencies@),
                                ),
                            ),
                        ),
                    },
                ),
            decreases data.len() - convert.offset(),
        {
            let ghost pos = convert.offset();
            let ghost f = (
                opt_view(name),
                opt_view(version),
                deps_view(dependencies@),
                deps_view(dev_dependencies@),
            );
            proof {
                lemma_record_outcome_end(
                    data,
                    pos,
                    dependency_node(),
                    (name_key(), version_key(), ignore_version_key()),
                );
                lemma_record_outcome_end(
                    data,
                    pos,
                    dev_dependency_node(),
                    (name_key(), version_key(), ignore_version_key()),
                );
                lemma_close_len_bounds(data, pos, 0);
            }
            if let Ok(range) = convert.end_node(node) {
                convert.update(range);
                break;
            } else if let Ok((range, val)) = convert.meta_string("name") {
                convert.update(range);
                name = Some(val);
            } else if let Ok((range, val)) = convert.meta_string("version") {
                convert.update(range);
                version = Some(val);
            } else {
                let ghost before = ignored@;
                match Dependency::from_meta_data("dependency", convert, ignored) {
                    Ok((range, dependency)) => {
                        convert.update(range);
                        let ghost d = dependency_outcome(data, pos, dependency_node());
                        let ghost dv = dependency@;
                        dependencies.push(dependency);
                        proof {
                            assert(deps_view(dependencies@) =~= f.2.push(dv));
                            let rest = package_loop(data, convert.offset(), (f.0, f.1, f.2.push(dv), f.3));
                            assert(acc + (d.ignored + rest.ignored) =~= (acc + d.ignored) + rest.ignored);
                            let ghost acc0 = acc;
                            acc = acc + d.ignored;
                            assert(after_ignoring(acc0, after_ignoring(d.ignored, rest)) =~= after_ignoring(acc, rest));
                        }
                    },
                    Err(()) => {
                        let ghost d = dependency_outcome(data, pos, dependency_node());
                        let ghost mid = ignored@;
                        match Dependency::from_meta_data("dev_dependency", convert, ignored) {
                            Ok((range, dependency)) => {
                                convert.update(range);
                                let ghost dd = dependency_outcome(data, pos, dev_dependency_node());
                                let ghost dv = dependency@;
                                dev_dependencies.push(dependency);
                                proof {
                                    assert(deps_view(dev_dependencies@) =~= f.3.push(dv));
                                    let rest = package_loop(data, convert.offset(), (f.0, f.1, f.2, f.3.push(dv)));
                                    assert(acc + ((d.ignored + dd.ignored) + rest.ignored) =~= (acc + (d.ignored + dd.ignored)) + rest.ignored);
                                    assert(ignored@ =~= old(ignored)@ + (acc + (d.ignored + dd.ignored)));
                                    let ghost acc0 = acc;
                                    acc = acc + (d.ignored + dd.ignored);
                                    assert(after_ignoring(acc0, after_ignoring(d.ignored + dd.ignored, rest)) =~= after_ignoring(acc, rest));
                                }
                            },
                            Err(()) => {
                                let ghost dd = dependency_outcome(data, pos, dev_dependency_node());
                                let range = convert.ignore();
                                convert.update(range);
                                ignored.push(range);
                                proof {
                                    let pushed = d.ignored + dd.ignored + seq![range];
                                    let rest = package_loop(data, convert.offset(), f);
                                    assert(acc + (pushed + rest.ignored) =~= (acc + pushed) + rest.ignored);
                                    assert(ignored@ =~= old(ignored)@ + (acc + pushed));
                                    let ghost acc0 = acc;
                                    acc = acc + pushed;
                                    assert(after_ignoring(acc0, after_ignoring(pushed, rest)) =~= after_ignoring(acc, rest));
                                }
                            },
                        }
                    },
                }
            }
        }
        assert(full.ignored =~= acc);
        match (name, version) {
            (Some(name), Some(version)) => Ok(
                (
                    convert.subtract(start),
                    Package { name, version, dependencies, dev_dependencies },
                ),
            ),
            _ => Err(()),
        }
    }
}

/// Reads package nodes one after another from `pos` on, after the packages
/// `acc`; it succeeds where the packages take up all the data.
#[verifier::opaque]
pub open spec fn packages_from(data: Seq<MetaView>, pos: int, acc: Seq<PackageView>) -> Outcome<
    Seq<PackageView>,
>
    decreases data.len() - pos,
{
    let p = package_outcome(data, pos);
    proof {
        lemma_package_outcome_end(data, pos);
    }
    if p.stuck {
        stuck()
    } else {
        match p.result {
            Some((e, pv)) => after_ignoring(p.ignored, packages_from(data, e, acc.push(pv))),
            None => Outcome {
                stuck: false,
                ignored: p.ignored,
                result: if pos >= data.len() {
                    Some((pos, acc))
                } else {
                    None
                },
            },
        }
    }
}

/// Converts from meta data to dependency information.
pub fn convert(data: &[MetaData], ignored: &mut Vec<Range>) -> (res: Result<Vec<Package>, ()>)
    requires
        !packages_from(meta_view(data@), 0, Seq::empty()).stuck,
    ensures
        ({
            let o = packages_from(meta_view(data@), 0, Seq::empty());
            &&& final(ignored)@ == old(ignored)@ + o.ignored
            &&& match res {
                Ok(v) => o.result matches Some((_, ps)) && ps == packages_view(v@),
                Err(()) => o.result is None,
            }
        }),
{
    let mut convert = Convert::new(data);
    let mut res: Vec<Package> = Vec::new();
    let ghost full = packages_from(meta_view(data@), 0, Seq::empty());
    proof {
        reveal(packages_from);
    }
    let ghost mut acc: Seq<Range> = Seq::empty();
    assert(acc + full.ignored =~= full.ignored);
    assert(packages_view(res@) =~= Seq::<PackageView>::empty());
    loop
        invariant
            convert.data() == meta_view(data@),
            0 <= convert.offset() <= meta_view(data@).len(),
            ignored@ == old(ignored)@ + acc,
            full == packages_from(meta_view(data@), 0, Seq::empty()),
            full == after_ignoring(acc, packages_from(meta_view(data@), convert.offset(), packages_view(res@))),
            !full.stuck,
        decreases meta_view(data@).len() - convert.offset(),
    {
        let ghost pos = convert.offset();
        let ghost before = packages_view(res@);
        let ghost p = package_outcome(meta_view(data@), pos);
        proof {
            reveal(packages_from);
            lemma_package_outcome_end(meta_view(data@), pos);
        }
        match Package::from_meta_data(convert, ignored) {
            Ok((range, package)) => {
                convert.update(range);
                let ghost pv = package@;
                res.push(package);
                proof {
                    assert(packages_view(res@) =~= before.push(pv));
                    let rest = packages_from(meta_view(data@), convert.offset(), before.push(pv));
                    assert(acc + (p.ignored + rest.ignored) =~= (acc + p.ignored) + rest.ignored);
                    let ghost acc0 = acc;
                    acc = acc + p.ignored;
                    assert(after_ignoring(acc0, after_ignoring(p.ignored, rest)) =~= after_ignoring(acc, rest));
                }
            },
            Err(()) => {
                assert(full.ignored =~= acc + p.ignored);
                assert(ignored@ =~= old(ignored)@ + (acc + p.ignored));
                if convert.remaining_data_len() > 0 {
                    return Err(());
                } else {
                    return Ok(res);
                }
            },
        }
    }
}

/// The text of one dependency; `has_next` where another one follows it.
pub open spec fn dependency_text(d: DependencyView, has_next: bool) -> Seq<char> {
    "   "@ + json_string(d.name) + ": {\n"@ + "    \"version\": "@ + json_string(d.version) + (
    match d.ignore_version {
        Some(iv) => ",\n"@ + "    \"ignore-version\": "@ + json_string(iv),
        None => Seq::empty(),
    }) + "\n"@ + "   }"@ + (if has_next {
        ",\n"@
    } else {
        "\n"@
    })
}

/// The text of the first `k` of the dependencies `ds`.
pub open spec fn dependencies_text(ds: Seq<DependencyView>, k: int) -> Seq<char>
    decreases k,
{
    if k <= 0 {
        Seq::empty()
    } else {
        dependencies_text(ds, k - 1) + dependency_text(ds[k - 1], k != ds.len())
    }
}

/// The text of one package; `has_next` where another one follows it.
pub open spec fn package_text(p: PackageView, has_next: bool) -> Seq<char> {
    " "@ + json_string(p.name) + ": {\n"@ + "  \"version\": "@ + json_string(p.version) + ",\n"@
        + "  \"dependencies\": {\n"@ + dependencies_text(p.dependencies, p.dependencies.len() as int)
        + "  },\n"@ + "  \"dev-dependencies\": {\n"@ + dependencies_text(
        p.dev_dependencies,
        p.dev_dependencies.len() as int,
    ) + "  }\n"@ + " }"@ + (if has_next {
        ",\n"@
    } else {
        "\n"@
    })
}

/// The text of the first `k` of the packages `ps`.
pub open spec fn packages_text(ps: Seq<PackageView>, k: int) -> Seq<char>
    decreases k,
{
    if k <= 0 {
        Seq::empty()
    } else {
        packages_text(ps, k - 1) + package_text(ps[k - 1], k != ps.len())
    }
}

/// The dependency info text of the packages `ps`: a JSON object with a member
/// for each package.
pub open spec fn dependency_info_text(ps: Seq<PackageView>) -> Seq<char> {
    "{\n"@ + packages_text(ps, ps.len() as int) + "}\n"@
}

/// Writes one dependency; `has_next` where another one follows it.
#[verifier::spinoff_prover]
#[verifier::rlimit(50)]
fn write_dependency(w: &mut String, dependency: &Dependency, has_next: bool)
    ensures
        final(w)@ == old(w)@ + dependency_text(dependency@, has_next),
{
    let ghost before = w@;
    let ghost mut piece = Seq::<char>::empty();
    w.append("   ");
    proof { piece = piece + "   "@; assert(w@ =~= before + piece); }
    write_json_string(w, dependency.name.as_str());
    proof { piece = piece + json_string(dependency.name@); assert(w@ =~= before + piece); }
    w.append(": {\n");
    proof { piece = piece + ": {\n"@; assert(w@ =~= before + piece); }
    w.append("    \"version\": ");
    proof { piece = piece + "    \"version\": "@; assert(w@ =~= before + piece); }
    write_json_string(w, dependency.version.as_str());
    proof { piece = piece + json_string(dependency.version@); assert(w@ =~= before + piece); }
    let ghost opt = match dependency@.ignore_version {
        Some(iv) => ",\n"@ + "    \"ignore-version\": "@ + json_string(iv),
        None => Seq::<char>::empty(),
    };
    let ghost mid = w@;
    match &dependency.ignore_version {
        Some(ignore_version) => {
            w.append(",\n");
            w.append("    \"ignore-version\": ");
            write_json_string(w, ignore_version.as_str());
        },
        None => {},
    }
    proof { assert(w@ =~= mid + opt); piece = piece + opt; assert(w@ =~= before + piece); }
    w.append("\n");
    proof { piece = piece + "\n"@; assert(w@ =~= before + piece); }
    w.append("   }");
    proof { piece = piece + "   }"@; assert(w@ =~= before + piece); }
    let ghost tail = if has_next { ",\n"@ } else { "\n"@ };
    if has_next {
        w.append(",\n");
    } else {
        w.append("\n");
    }
    proof {
        piece = piece + tail;
        assert(w@ =~= before + piece);
        assert(piece == dependency_text(dependency@, has_next));
    }
}

/// Writes one package; `has_next` where another one follows it.
#[verifier::spinoff_prover]
#[verifier::rlimit(50)]
fn write_package(w: &mut String, package: &Package, has_next: bool)
    ensures
        final(w)@ == old(w)@ + package_text(package@, has_next),
{
    let ghost before = w@;
    let ghost mut piece = Seq::<char>::empty();
    w.append(" ");
    proof { piece = piece + " "@; assert(w@ =~= before + piece); }
    write_json_string(w, package.name.as_str());
    proof { piece = piece + json_string(package.name@); assert(w@ =~= before + piece); }
    w.append(": {\n");
    proof { piece = piece + ": {\n"@; assert(w@ =~= before + piece); }
    w.append("  \"version\": ");
    proof { piece = piece + "  \"version\": "@; assert(w@ =~= before + piece); }
    write_json_string(w, package.version.as_str());
    proof { piece = piece + json_string(package.version@); assert(w@ =~= before + piece); }
    w.append(",\n");
    proof { piece = piece + ",\n"@; assert(w@ =~= before + piece); }
    w.append("  \"dependencies\": {\n");
    proof { piece = piece + "  \"dependencies\": {\n"@; assert(w@ =~= before + piece); }
    write_dependencies(w, &package.dependencies);
    proof {
        piece = piece + dependencies_text(package@.dependencies, package@.dependencies.len() as int);
        assert(w@ =~= before + piece);
    }
    w.append("  },\n");
    proof { piece = piece + "  },\n"@; assert(w@ =~= before + piece); }
    w.append("  \"dev-dependencies\": {\n");
    proof { piece = piece + "  \"dev-dependencies\": {\n"@; assert(w@ =~= before + piece); }
    write_dependencies(w, &package.dev_dependencies);
    proof {
        piece = piece + dependencies_text(package@.dev_dependencies, package@.dev_dependencies.len() as int);
        assert(w@ =~= before + piece);
    }
    w.append("  }\n");
    proof { piece = piece + "  }\n"@; assert(w@ =~= before + piece); }
    w.append(" }");
    proof { piece = piece + " }"@; assert(w@ =~= before + piece); }
    let ghost tail = if has_next { ",\n"@ } else { "\n"@ };
    if has_next {
        w.append(",\n");
    } else {
        w.append("\n");
    }
    proof {
        piece = piece + tail;
        assert(w@ =~= before + piece);
        assert(piece == package_text(package@, has_next));
    }
}

/// Writes the dependencies `deps`.
fn write_dependencies(w: &mut String, deps: &Vec<Dependency>)
    ensures
        final(w)@ == old(w)@ + dependencies_text(deps_view(deps@), deps@.len() as int),
{
    let n1 = deps.len();
    let ghost ds = deps_view(deps@);
    let mut i1: usize = 0;
    assert(old(w)@ + Seq::<char>::empty() =~= old(w)@);
    while i1 < n1
        invariant
            n1 == deps@.len(),
            ds == deps_view(deps@),
            i1 <= n1,
            w@ == old(w)@ + dependencies_text(ds, i1 as int),
        decreases n1 - i1,
    {
        let dependency = &deps[i1];
        let has_next = i1 + 1 != n1;
        write_dependency(w, dependency, has_next);
        i1 = i1 + 1;
        proof {
            assert(ds[i1 - 1] == dependency@);
            assert((i1 as int) != ds.len() <==> has_next);
            assert(w@ =~= old(w)@ + dependencies_text(ds, i1 as int));
        }
    }
}

/// Writes the dependency info of the packages `package_data`.
pub fn write(package_data: &[Package], w: &mut String)
    ensures
        final(w)@ == old(w)@ + dependency_info_text(packages_view(package_data@)),
{
    let ghost ps = packages_view(package_data@);
    w.append("{\n");
    let ghost start = w@;
    let n0 = package_data.len();
    let mut i0: usize = 0;
    assert(start + Seq::<char>::empty() =~= start);
    while i0 < n0
        invariant
            n0 == package_data@.len(),
            ps == packages_view(package_data@),
            i0 <= n0,
            w@ == start + packages_text(ps, i0 as int),
        decreases n0 - i0,
    {
        let package = &package_data[i0];
        write_package(w, package, i0 + 1 != n0);
        i0 = i0 + 1;
        proof {
            assert(ps[i0 - 1] == package@);
            assert(w@ =~= start + packages_text(ps, i0 as int));
        }
    }
    w.append("}\n");
    assert(w@ =~= old(w)@ + dependency_info_text(ps));
}

/// Reading the meta data of a dependency gives the dependency back, ignoring
/// nothing.
pub proof fn lemma_dependency_outcome_reads(data: Seq<MetaView>, pos: int, node: Seq<char>, d: DependencyView)
    requires
        0 <= pos,
        pos + dependency_meta(node, d).len() <= data.len(),
        data.subrange(pos, pos + dependency_meta(node, d).len()) == dependency_meta(node, d),
    ensures
        dependency_outcome(data, pos, node) == succeeded(pos + dependency_meta(node, d).len(), d),
{
    let m = dependency_meta(node, d);
    let keys = (name_key(), version_key(), ignore_version_key());
    let rest = seq![MetaView::String(keys.0, d.name), MetaView::String(keys.1, d.version)] + match d.ignore_version {
        Some(v) => seq![MetaView::String(keys.2, v)],
        None => Seq::empty(),
    } + seq![MetaView::EndNode(node)];
    assert(m =~= seq![MetaView::StartNode(node)] + rest);
    lemma_split(data, pos, seq![MetaView::StartNode(node)], rest);
    assert(data[pos] == m[0]);
    lemma_record_loop_reads_fields(data, pos + 1, node, keys, d.name, d.version, d.ignore_version);
}

/// Reading the meta data of dependencies inside a package adds them to the
/// package, ignoring nothing.
pub proof fn lemma_package_loop_dependencies(
    data: Seq<MetaView>,
    pos: int,
    dev: bool,
    ds: Seq<DependencyView>,
    f: PackageFields,
)
    requires
        0 <= pos,
        ({
            let m = dependencies_meta(if dev { dev_dependency_node() } else { dependency_node() }, ds);
            pos + m.len() <= data.len() && data.subrange(pos, pos + m.len()) == m
        }),
    ensures
        ({
            let m = dependencies_meta(if dev { dev_dependency_node() } else { dependency_node() }, ds);
            package_loop(data, pos, f) == package_loop(
                data,
                pos + m.len(),
                if dev {
                    (f.0, f.1, f.2, f.3 + ds)
                } else {
                    (f.0, f.1, f.2 + ds, f.3)
                },
            )
        }),
    decreases ds.len(),
{
    let node = if dev { dev_dependency_node() } else { dependency_node() };
    let m = dependencies_meta(node, ds);
    if ds.len() == 0 {
        assert(f.2 + ds =~= f.2);
        assert(f.3 + ds =~= f.3);
    } else {
        let dm = dependency_meta(node, ds[0]);
        let rest = dependencies_meta(node, ds.drop_first());
        lemma_split(data, pos, dm, rest);
        lemma_dependency_outcome_reads(data, pos, node, ds[0]);
        assert(data[pos] == dm[0]);
        let f2 = if dev {
            (f.0, f.1, f.2, f.3.push(ds[0]))
        } else {
            (f.0, f.1, f.2.push(ds[0]), f.3)
        };
        lemma_package_loop_dependencies(data, pos + dm.len(), dev, ds.drop_first(), f2);
        let o = package_loop(data, pos + dm.len(), f2);
        assert(after_ignoring(Seq::empty(), o) =~= o);
        assert(after_ignoring(Seq::<Range>::empty() + Seq::empty(), o) =~= o);
        if dev {
            assert(dependency_outcome(data, pos, dependency_node()) == failed::<DependencyView>());
            assert(f.3.push(ds[0]) + ds.drop_first() =~= f.3 + ds);
        } else {
            assert(f.2.push(ds[0]) + ds.drop_first() =~= f.2 + ds);
        }
        assert(package_loop(data, pos, f) == o);
    }
}

/// Reading the meta data of a package gives the package back, ignoring
/// nothing.
pub proof fn lemma_package_outcome_reads(data: Seq<MetaView>, pos: int, p: PackageView)
    requires
        0 <= pos,
        pos + package_meta(p).len() <= data.len(),
        data.subrange(pos, pos + package_meta(p).len()) == package_meta(p),
    ensures
        package_outcome(data, pos) == succeeded(pos + package_meta(p).len(), p),
{
    let m = package_meta(p);
    let head = seq![
        MetaView::StartNode(package_node()),
        MetaView::String(name_key(), p.name),
        MetaView::String(version_key(), p.version),
    ];
    let dm = dependencies_meta(dependency_node(), p.dependencies);
    let ddm = dependencies_meta(dev_dependency_node(), p.dev_dependencies);
    let tail = seq![MetaView::EndNode(package_node())];
    assert(m =~= head + (dm + (ddm + tail)));
    lemma_split(data, pos, head, dm + (ddm + tail));
    lemma_split(data, pos + 3, dm, ddm + tail);
    lemma_split(data, pos + 3 + dm.len(), ddm, tail);
    assert(data[pos] == head[0]);
    assert(data[pos + 1] == head[1]);
    assert(data[pos + 2] == head[2]);
    let e = pos + 3 + dm.len() + ddm.len();
    assert(data[e] == tail[0]);
    let f0: PackageFields = (None, None, Seq::empty(), Seq::empty());
    let f1: PackageFields = (Some(p.name), None, Seq::empty(), Seq::empty());
    let f2: PackageFields = (Some(p.name), Some(p.version), Seq::empty(), Seq::empty());
    lemma_package_loop_dependencies(data, pos + 3, false, p.dependencies, f2);
    let f3: PackageFields = (Some(p.name), Some(p.version), Seq::empty() + p.dependencies, Seq::empty());
    lemma_package_loop_dependencies(data, pos + 3 + dm.len(), true, p.dev_dependencies, f3);
    assert(Seq::<DependencyView>::empty() + p.dependencies =~= p.dependencies);
    assert(Seq::<DependencyView>::empty() + p.dev_dependencies =~= p.dev_dependencies);
    assert(package_loop(data, e, (Some(p.name), Some(p.version), p.dependencies, p.dev_dependencies)).result == Some((e + 1, (Some(p.name), Some(p.version), p.dependencies, p.dev_dependencies))));
    assert(package_loop(data, pos + 2, f1) == package_loop(data, pos + 3, f2));
    assert(package_loop(data, pos + 1, f0) == package_loop(data, pos + 2, f1));
}

/// Converting the meta data of packages gives back the packages, whatever came
/// before them, and ignores nothing.
pub proof fn lemma_packages_from_reads(data: Seq<MetaView>, pos: int, acc: Seq<PackageView>, ps: Seq<PackageView>)
    requires
        0 <= pos <= data.len(),
        data.subrange(pos, data.len() as int) == packages_meta(ps),
    ensures
        packages_from(data, pos, acc) == succeeded(data.len() as int, acc + ps),
    decreases ps.len(),
{
    if ps.len() == 0 {
        assert(acc + ps =~= acc);
        assert(data.subrange(pos, data.len() as int).len() == 0);
        assert(package_outcome(data, pos) == failed::<PackageView>());
        reveal(packages_from);
    } else {
        let pm = package_meta(ps[0]);
        let rest = packages_meta(ps.drop_first());
        assert(packages_meta(ps) == pm + rest);
        assert(data.subrange(pos, data.len() as int).len() == data.len() - pos);
        assert(pos + pm.len() + rest.len() == data.len());
        lemma_split(data, pos, pm, rest);
        lemma_package_outcome_reads(data, pos, ps[0]);
        let next = pos + pm.len();
        lemma_packages_from_reads(data, next, acc.push(ps[0]), ps.drop_first());
        assert(acc.push(ps[0]) + ps.drop_first() =~= acc + ps);
        let o = packages_from(data, next, acc.push(ps[0]));
        assert(after_ignoring(Seq::empty(), o) =~= o);
        lemma_packages_from_step(data, pos, acc, ps[0], next);
    }
}

/// One step of converting packages.
proof fn lemma_packages_from_step(data: Seq<MetaView>, pos: int, acc: Seq<PackageView>, p: PackageView, next: int)
    requires
        package_outcome(data, pos) == succeeded(next, p),
    ensures
        packages_from(data, pos, acc) == after_ignoring(Seq::empty(), packages_from(data, next, acc.push(p))),
{
    reveal(packages_from);
}

/// Converting the meta data of packages gives back exactly those packages and
/// ignores nothing; it never gets stuck.
pub proof fn converting_package_meta_gives_the_packages(ps: Seq<PackageView>)
    ensures
        packages_from(packages_meta(ps), 0, Seq::empty()) == succeeded(packages_meta(ps).len() as int, ps),
{
    let data = packages_meta(ps);
    assert(data.subrange(0, data.len() as int) =~= data);
    lemma_packages_from_reads(data, 0, Seq::empty(), ps);
    assert(Seq::<PackageView>::empty() + ps =~= ps);
}

} // verus!
