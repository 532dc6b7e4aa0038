//! Update info: in which order libraries are updated, and to which versions.
use crate::dependencies::{
    self, convert, converting_package_meta_gives_the_packages, packages_view,
    DependencyView, PackageView,
};
use std::rc::Rc;
use crate::reader::{dependency_info, read_dependency_info};
use crate::text::{decimal, json_string, push_decimal, str_eq, write_json_string};
use vstd::hash_map::StringHashMap;
use std::collections::HashMap;
use vstd::prelude::*;

verus! {

broadcast use vstd::std_specs::hash::group_hash_axioms;

/// The depth of package `i` in `ps`, with at most `fuel` nested steps: one more
/// than the greatest depth of its dependencies, where a dependency counts with
/// the depth of the last package of its name (and 0 where no package has its
/// name). `None` where `fuel` runs out, which it does for every fuel where a
/// dependency cycle is reachable from `i`.
pub open spec fn height(ps: Seq<PackageView>, i: int, fuel: nat) -> Option<nat>
    decreases fuel, 0int, 0int,
{
    if fuel == 0 || i < 0 || i >= ps.len() {
        None
    } else {
        let deps = ps[i].dependencies;
        match deps_height(ps, deps, deps.len() as int, (fuel - 1) as nat) {
            Some(m) => Some(m + 1),
            None => None,
        }
    }
}

/// The greatest depth among the first `k` dependencies `deps` (0 for none).
pub open spec fn deps_height(ps: Seq<PackageView>, deps: Seq<DependencyView>, k: int, fuel: nat) -> Option<nat>
    decreases fuel, 2int, k,
{
    if k <= 0 {
        Some(0)
    } else {
        match (deps_height(ps, deps, k - 1, fuel), name_height(ps, deps[k - 1].name, ps.len() as int, fuel)) {
            (Some(a), Some(b)) => Some(if a >= b { a } else { b }),
            _ => None,
        }
    }
}

/// The depth of the last of the first `m` packages called `name` (0 for none);
/// every package of that name is looked at.
pub open spec fn name_height(ps: Seq<PackageView>, name: Seq<char>, m: int, fuel: nat) -> Option<nat>
    decreases fuel, 1int, m,
{
    if m <= 0 {
        Some(0)
    } else {
        let prev = name_height(ps, name, m - 1, fuel);
        if ps[m - 1].name == name {
            match (prev, height(ps, m - 1, fuel)) {
                (Some(_), Some(h)) => Some(h),
                _ => None,
            }
        } else {
            prev
        }
    }
}

/// No dependency cycle: every package has a depth.
pub open spec fn acyclic(ps: Seq<PackageView>) -> bool {
    forall|i: int| 0 <= i < ps.len() ==> #[trigger] height(ps, i, (ps.len() + 1) as nat) is Some
}

/// The depth of package `i`, where there is no dependency cycle.
pub open spec fn depth(ps: Seq<PackageView>, i: int) -> nat {
    height(ps, i, (ps.len() + 1) as nat)->0
}

/// A depth is never more than the fuel it took.
pub proof fn lemma_height_bound(ps: Seq<PackageView>, i: int, fuel: nat)
    ensures
        height(ps, i, fuel) matches Some(v) ==> v <= fuel,
    decreases fuel, 0int, 0int,
{
    if fuel == 0 || i < 0 || i >= ps.len() {
    } else {
        let deps = ps[i].dependencies;
        lemma_deps_height_bound(ps, deps, deps.len() as int, (fuel - 1) as nat);
    }
}

/// The greatest depth of dependencies is never more than the fuel it took.
pub proof fn lemma_deps_height_bound(ps: Seq<PackageView>, deps: Seq<DependencyView>, k: int, fuel: nat)
    ensures
        deps_height(ps, deps, k, fuel) matches Some(v) ==> v <= fuel,
    decreases fuel, 2int, k,
{
    if k > 0 {
        lemma_deps_height_bound(ps, deps, k - 1, fuel);
        lemma_name_height_bound(ps, deps[k - 1].name, ps.len() as int, fuel);
    }
}

/// The depth of a name is never more than the fuel it took.
pub proof fn lemma_name_height_bound(ps: Seq<PackageView>, name: Seq<char>, m: int, fuel: nat)
    ensures
        name_height(ps, name, m, fuel) matches Some(v) ==> v <= fuel,
    decreases fuel, 1int, m,
{
    if m > 0 {
        lemma_name_height_bound(ps, name, m - 1, fuel);
        lemma_height_bound(ps, m - 1, fuel);
    }
}

/// More fuel does not change a depth that was found.
pub proof fn lemma_height_more_fuel(ps: Seq<PackageView>, i: int, fuel: nat)
    ensures
        height(ps, i, fuel) is Some ==> height(ps, i, fuel + 1) == height(ps, i, fuel),
    decreases fuel, 0int, 0int,
{
    if fuel == 0 || i < 0 || i >= ps.len() {
    } else {
        let deps = ps[i].dependencies;
        lemma_deps_height_more_fuel(ps, deps, deps.len() as int, (fuel - 1) as nat);
    }
}

/// More fuel does not change the greatest depth of dependencies that was found.
pub proof fn lemma_deps_height_more_fuel(ps: Seq<PackageView>, deps: Seq<DependencyView>, k: int, fuel: nat)
    ensures
        deps_height(ps, deps, k, fuel) is Some ==> deps_height(ps, deps, k, fuel + 1) == deps_height(ps, deps, k, fuel),
    decreases fuel, 2int, k,
{
    if k > 0 {
        lemma_deps_height_more_fuel(ps, deps, k - 1, fuel);
        lemma_name_height_more_fuel(ps, deps[k - 1].name, ps.len() as int, fuel);
    }
}

/// More fuel does not change the depth of a name that was found.
pub proof fn lemma_name_height_more_fuel(ps: Seq<PackageView>, name: Seq<char>, m: int, fuel: nat)
    ensures
        name_height(ps, name, m, fuel) is Some ==> name_height(ps, name, m, fuel + 1) == name_height(ps, name, m, fuel),
    decreases fuel, 1int, m,
{
    if m > 0 {
        lemma_name_height_more_fuel(ps, name, m - 1, fuel);
        lemma_height_more_fuel(ps, m - 1, fuel);
    }
}

/// Any two fuels that find a depth find the same one.
pub proof fn lemma_height_unique(ps: Seq<PackageView>, i: int, f1: nat, f2: nat)
    requires
        height(ps, i, f1) is Some,
        height(ps, i, f2) is Some,
    ensures
        height(ps, i, f1) == height(ps, i, f2),
    decreases if f1 <= f2 { f2 - f1 } else { f1 - f2 },
{
    if f1 < f2 {
        lemma_height_more_fuel(ps, i, f1);
        lemma_height_unique(ps, i, (f1 + 1) as nat, f2);
    } else if f2 < f1 {
        lemma_height_more_fuel(ps, i, f2);
        lemma_height_unique(ps, i, f1, (f2 + 1) as nat);
    }
}

/// Where the greatest depth of `k` dependencies is found, it is found for fewer.
pub proof fn lemma_deps_height_prefix(ps: Seq<PackageView>, deps: Seq<DependencyView>, k: int, j: int, fuel: nat)
    requires
        0 <= j <= k,
        deps_height(ps, deps, k, fuel) is Some,
    ensures
        deps_height(ps, deps, j, fuel) is Some,
        j < k ==> name_height(ps, deps[j].name, ps.len() as int, fuel) is Some,
    decreases k - j,
{
    if j < k {
        lemma_deps_height_prefix(ps, deps, k - 1, j, fuel);
    }
}

/// Where the depth of a name is found among `m` packages, it is found among
/// fewer, and so is the depth of each package of that name.
pub proof fn lemma_name_height_prefix(ps: Seq<PackageView>, name: Seq<char>, m: int, j: int, fuel: nat)
    requires
        0 <= j <= m,
        name_height(ps, name, m, fuel) is Some,
    ensures
        name_height(ps, name, j, fuel) is Some,
        j < m && ps[j].name == name ==> height(ps, j, fuel) is Some,
    decreases m - j,
{
    if j < m {
        lemma_name_height_prefix(ps, name, m - 1, j, fuel);
    }
}

/// The greatest depth of dependencies is at least the depth of the name of each
/// of them.
pub proof fn lemma_deps_height_ge(ps: Seq<PackageView>, deps: Seq<DependencyView>, m: int, k: int, fuel: nat)
    requires
        0 <= k < m,
        deps_height(ps, deps, m, fuel) is Some,
    ensures
        name_height(ps, deps[k].name, ps.len() as int, fuel) is Some,
        name_height(ps, deps[k].name, ps.len() as int, fuel)->0 <= deps_height(ps, deps, m, fuel)->0,
    decreases m,
{
    if k < m - 1 {
        lemma_deps_height_ge(ps, deps, m - 1, k, fuel);
    }
}

/// The depth of a name among the first `m` packages is that of the last of them
/// with that name.
pub proof fn lemma_name_height_last(ps: Seq<PackageView>, name: Seq<char>, m: int, j: int, fuel: nat)
    requires
        0 <= j < m <= ps.len(),
        ps[j].name == name,
        forall|k: int| j < k < m ==> #[trigger] ps[k].name != name,
        name_height(ps, name, m, fuel) is Some,
    ensures
        name_height(ps, name, m, fuel) == height(ps, j, fuel),
    decreases m,
{
    if m - 1 > j {
        assert(ps[m - 1].name != name);
        lemma_name_height_last(ps, name, m - 1, j, fuel);
    }
}

/// Package `j` is the last one called `name`.
pub open spec fn last_named(ps: Seq<PackageView>, name: Seq<char>, j: int) -> bool {
    &&& 0 <= j < ps.len()
    &&& ps[j].name == name
    &&& forall|k: int| j < k < ps.len() ==> #[trigger] ps[k].name != name
}

/// Without dependency cycles, a package lies deeper than each listed package it
/// depends on (the last one of the dependency's name), so that updating in the
/// order of depth updates dependencies first.
pub proof fn dependencies_lie_less_deep(ps: Seq<PackageView>, i: int, k: int, j: int)
    requires
        acyclic(ps),
        0 <= i < ps.len(),
        0 <= k < ps[i].dependencies.len(),
        last_named(ps, ps[i].dependencies[k].name, j),
    ensures
        depth(ps, j) < depth(ps, i),
{
    let fuel = (ps.len() + 1) as nat;
    let f1 = (fuel - 1) as nat;
    let deps = ps[i].dependencies;
    let name = deps[k].name;
    assert(height(ps, i, fuel) is Some);
    assert(deps_height(ps, deps, deps.len() as int, f1) is Some);
    lemma_deps_height_ge(ps, deps, deps.len() as int, k, f1);
    lemma_name_height_last(ps, name, ps.len() as int, j, f1);
    assert(height(ps, j, fuel) is Some);
    lemma_height_unique(ps, j, f1, fuel);
}

/// The depths kept so far are the depths of their packages, whatever the fuel
/// that finds them.
pub open spec fn memo_ok(m: Map<usize, u32>, ps: Seq<PackageView>) -> bool {
    forall|k: usize, f: nat|
        #![trigger m.contains_key(k), height(ps, k as int, f)]
        m.contains_key(k) && height(ps, k as int, f) is Some ==> height(ps, k as int, f) == Some(
            m[k] as nat,
        )
}

/// Computes the depth of a package, keeping the depths it computes.
fn depth_of(
    package_index: usize,
    depths: &mut HashMap<usize, u32>,
    dependencies_data: &[dependencies::Package],
    Ghost(fuel): Ghost<nat>,
) -> (d: u32)
    requires
        package_index < dependencies_data@.len(),
        height(packages_view(dependencies_data@), package_index as int, fuel) is Some,
        fuel <= u32::MAX,
        memo_ok(old(depths)@, packages_view(dependencies_data@)),
    ensures
        height(packages_view(dependencies_data@), package_index as int, fuel) == Some(d as nat),
        memo_ok(final(depths)@, packages_view(dependencies_data@)),
        final(depths)@.contains_key(package_index),
        forall|k: usize| old(depths)@.contains_key(k) ==> #[trigger] final(depths)@.contains_key(k),
        forall|k: usize|
            #[trigger] final(depths)@.contains_key(k) ==> old(depths)@.contains_key(k) || k
                < dependencies_data@.len(),
    decreases fuel,
{
    let ghost ps = packages_view(dependencies_data@);
    let package = &dependencies_data[package_index];
    let ghost deps = ps[package_index as int].dependencies;
    assert(deps == dependencies::deps_view(package.dependencies@));
    let d = match depths.get(&package_index) {
        Some(d) => Some(*d),
        None => None,
    };
    match d {
        Some(x) => x,
        None => {
            let ghost f1 = (fuel - 1) as nat;
            proof {
                lemma_deps_height_bound(ps, deps, deps.len() as int, f1);
            }
            let n = package.dependencies.len();
            let mut max_depth: u32 = 0;
            let mut j: usize = 0;
            while j < n
                invariant
                    n == deps.len(),
                    deps == dependencies::deps_view(package.dependencies@),
                    ps == packages_view(dependencies_data@),
                    fuel >= 1,
                    f1 == fuel - 1,
                    fuel <= u32::MAX,
                    j <= n,
                    deps_height(ps, deps, n as int, f1) is Some,
                    deps_height(ps, deps, j as int, f1) == Some(max_depth as nat),
                    memo_ok(depths@, ps),
                    forall|k: usize| old(depths)@.contains_key(k) ==> #[trigger] depths@.contains_key(k),
                    forall|k: usize|
                        #[trigger] depths@.contains_key(k) ==> old(depths)@.contains_key(k) || k
                            < dependencies_data@.len(),
                decreases n - j,
            {
                let dep = &package.dependencies[j];
                proof {
                    lemma_deps_height_prefix(ps, deps, n as int, j as int, f1);
                }
                let ghost name = deps[j as int].name;
                assert(name == dep.name@);
                let len = dependencies_data.len();
                let mut depth: u32 = 0;
                let mut i: usize = 0;
                while i < len
                    invariant
                        len == dependencies_data@.len(),
                        ps == packages_view(dependencies_data@),
                        name == dep.name@,
                        fuel >= 1,
                        f1 == fuel - 1,
                        fuel <= u32::MAX,
                        i <= len,
                        name_height(ps, name, len as int, f1) is Some,
                        name_height(ps, name, i as int, f1) == Some(depth as nat),
                        memo_ok(depths@, ps),
                        forall|k: usize| old(depths)@.contains_key(k) ==> #[trigger] depths@.contains_key(k),
                        forall|k: usize|
                            #[trigger] depths@.contains_key(k) ==> old(depths)@.contains_key(k) || k
                                < dependencies_data@.len(),
                    decreases len - i,
                {
                    proof {
                        lemma_name_height_prefix(ps, name, len as int, i as int, f1);
                    }
                    let p = &dependencies_data[i];
                    assert(ps[i as int].name == p.name@);
                    if str_eq(p.name.as_str(), dep.name.as_str()) {
                        depth = depth_of(i, depths, dependencies_data, Ghost(f1));
                    }
                    i = i + 1;
                }
                if depth > max_depth {
                    max_depth = depth;
                }
                j = j + 1;
            }
            let new_depth = max_depth + 1;
            proof {
                let h = height(ps, package_index as int, fuel);
                assert(h == Some(new_depth as nat));
                assert forall|k: usize, f: nat|
                    #![trigger depths@.insert(package_index, new_depth).contains_key(k), height(ps, k as int, f)]
                    depths@.insert(package_index, new_depth).contains_key(k) && height(ps, k as int, f) is Some
                    implies height(ps, k as int, f) == Some(depths@.insert(package_index, new_depth)[k] as nat)
                by {
                    if k == package_index {
                        lemma_height_unique(ps, k as int, f, fuel);
                    } else {
                        assert(depths@.contains_key(k));
                    }
                }
            }
            depths.insert(package_index, new_depth);
            new_depth
        },
    }
}

/// Computes the depth of every package: the greatest depth of its dependencies
/// plus one.
pub fn library_depths(dependencies_data: &[dependencies::Package]) -> (depths: HashMap<usize, u32>)
    requires
        acyclic(packages_view(dependencies_data@)),
        dependencies_data@.len() < u32::MAX,
    ensures
        forall|i: usize| #[trigger] depths@.contains_key(i) <==> i < dependencies_data@.len(),
        forall|i: usize|
            i < dependencies_data@.len() ==> #[trigger] depths@[i] == depth(
                packages_view(dependencies_data@),
                i as int,
            ),
{
    let ghost ps = packages_view(dependencies_data@);
    let ghost fuel = (ps.len() + 1) as nat;
    let mut depths: HashMap<usize, u32> = HashMap::new();
    let n = dependencies_data.len();
    let mut i: usize = 0;
    while i < n
        invariant
            n == dependencies_data@.len(),
            ps == packages_view(dependencies_data@),
            fuel == ps.len() + 1,
            acyclic(ps),
            n < u32::MAX,
            i <= n,
            memo_ok(depths@, ps),
            forall|k: usize| k < i ==> #[trigger] depths@.contains_key(k),
            forall|k: usize| #[trigger] depths@.contains_key(k) ==> k < n,
        decreases n - i,
    {
        assert(height(ps, i as int, fuel) is Some);
        let ghost before = depths@;
        let _depth = depth_of(i, &mut depths, dependencies_data, Ghost(fuel));
        i = i + 1;
    }
    proof {
        assert forall|k: usize| k < dependencies_data@.len() implies #[trigger] depths@[k] == depth(ps, k as int) by {
            assert(depths@.contains_key(k));
            assert(height(ps, k as int, fuel) is Some);
        }
    }
    depths
}

/// A depth as it was found, as a number.
pub open spec fn opt_depth(o: Option<u32>) -> Option<nat> {
    match o {
        Some(d) => Some(d as nat),
        None => None,
    }
}

/// Computes the depth of every package with `fuel` nested steps, from the
/// depths with one step less (`below`).
fn heights_at(dependencies_data: &[dependencies::Package], below: &Vec<Option<u32>>, Ghost(fuel): Ghost<nat>) -> (hs: Vec<
    Option<u32>,
>)
    requires
        1 <= fuel <= u32::MAX,
        below@.len() == dependencies_data@.len(),
        forall|i: int|
            0 <= i < below@.len() ==> opt_depth(#[trigger] below@[i]) == height(
                packages_view(dependencies_data@),
                i,
                (fuel - 1) as nat,
            ),
    ensures
        hs@.len() == dependencies_data@.len(),
        forall|i: int|
            0 <= i < hs@.len() ==> opt_depth(#[trigger] hs@[i]) == height(
                packages_view(dependencies_data@),
                i,
                fuel,
            ),
{
    let ghost ps = packages_view(dependencies_data@);
    let ghost f1 = (fuel - 1) as nat;
    let n = dependencies_data.len();
    let mut hs: Vec<Option<u32>> = Vec::new();
    for i in 0..n
        invariant
            n == dependencies_data@.len(),
            ps == packages_view(dependencies_data@),
            f1 == fuel - 1,
            1 <= fuel <= u32::MAX,
            below@.len() == n,
            forall|k: int| 0 <= k < n ==> opt_depth(#[trigger] below@[k]) == height(ps, k, f1),
            hs@.len() == i,
            forall|k: int| 0 <= k < i ==> opt_depth(#[trigger] hs@[k]) == height(ps, k, fuel),
    {
        let package = &dependencies_data[i];
        let ghost deps = ps[i as int].dependencies;
        assert(deps == dependencies::deps_view(package.dependencies@));
        let nd = package.dependencies.len();
        let mut acc: Option<u32> = Some(0);
        for j in 0..nd
            invariant
                n == dependencies_data@.len(),
                ps == packages_view(dependencies_data@),
                nd == deps.len(),
                deps == dependencies::deps_view(package.dependencies@),
                1 <= fuel <= u32::MAX,
                f1 == fuel - 1,
                below@.len() == n,
                forall|k: int| 0 <= k < n ==> opt_depth(#[trigger] below@[k]) == height(ps, k, f1),
                opt_depth(acc) == deps_height(ps, deps, j as int, f1),
        {
            let dep = &package.dependencies[j];
            let ghost name = deps[j as int].name;
            assert(name == dep.name@);
            let mut nh: Option<u32> = Some(0);
            for m in 0..n
                invariant
                    n == dependencies_data@.len(),
                    ps == packages_view(dependencies_data@),
                    name == dep.name@,
                    below@.len() == n,
                    forall|k: int| 0 <= k < n ==> opt_depth(#[trigger] below@[k]) == height(ps, k, f1),
                    opt_depth(nh) == name_height(ps, name, m as int, f1),
            {
                let p = &dependencies_data[m];
                assert(ps[m as int].name == p.name@);
                if str_eq(p.name.as_str(), dep.name.as_str()) {
                    assert(opt_depth(below@[m as int]) == height(ps, m as int, f1));
                    nh = match (nh, below[m]) {
                        (Some(_), Some(h)) => Some(h),
                        _ => None,
                    };
                }
            }
            acc = match (acc, nh) {
                (Some(a), Some(b)) => Some(if a >= b { a } else { b }),
                _ => None,
            };
        }
        proof {
            lemma_deps_height_bound(ps, deps, nd as int, f1);
        }
        let h = match acc {
            Some(m) => Some(m + 1),
            None => None,
        };
        assert(opt_depth(h) == height(ps, i as int, fuel));
        hs.push(h);
    }
    hs
}

/// Whether the packages have no dependency cycle, so that every package has a
/// depth.
pub fn is_acyclic(dependencies_data: &[dependencies::Package]) -> (b: bool)
    requires
        dependencies_data@.len() < u32::MAX,
    ensures
        b == acyclic(packages_view(dependencies_data@)),
{
    let ghost ps = packages_view(dependencies_data@);
    let n = dependencies_data.len();
    let mut hs: Vec<Option<u32>> = Vec::new();
    for i in 0..n
        invariant
            hs@.len() == i,
            forall|k: int| 0 <= k < i ==> opt_depth(#[trigger] hs@[k]) == height(ps, k, 0),
    {
        hs.push(None);
    }
    let mut f: usize = 0;
    while f <= n
        invariant
            n == dependencies_data@.len(),
            ps == packages_view(dependencies_data@),
            n < u32::MAX,
            f <= n + 1,
            hs@.len() == n,
            forall|k: int| 0 <= k < n ==> opt_depth(#[trigger] hs@[k]) == height(ps, k, f as nat),
        decreases n + 1 - f,
    {
        hs = heights_at(dependencies_data, &hs, Ghost((f + 1) as nat));
        f = f + 1;
    }
    let mut all = true;
    for i in 0..n
        invariant
            n == dependencies_data@.len(),
            ps == packages_view(dependencies_data@),
            f == n + 1,
            hs@.len() == n,
            forall|k: int| 0 <= k < n ==> opt_depth(#[trigger] hs@[k]) == height(ps, k, f as nat),
            all == forall|k: int| 0 <= k < i ==> #[trigger] height(ps, k, (ps.len() + 1) as nat) is Some,
    {
        assert(opt_depth(hs@[i as int]) == height(ps, i as int, f as nat));
        if hs[i].is_none() {
            all = false;
        }
    }
    all
}

#[verifier::external_type_specification]
#[verifier::external_body]
pub struct ExVersion(semver::Version);

/// Stores old and new version.
pub struct Bump {
    /// The old version.
    pub old: semver::Version,
    /// The new version.
    pub new: semver::Version,
}

/// Stores update info for dependency.
pub struct Dependency {
    /// The library name.
    pub name: Rc<String>,
    /// Bump info.
    pub bump: Bump,
}

/// Stores information about a package.
pub struct Package {
    /// The package name.
    pub name: Rc<String>,
    /// The order to update library.
    pub order: u32,
    /// Update information.
    pub bump: Bump,
    /// The dependencies.
    pub dependencies: Vec<Dependency>,
}

/// Whether `semver::Version::parse` reads `text` as a version.
pub uninterp spec fn semver_parses(text: Seq<char>) -> bool;

/// Whether the version read from `a` comes before the version read from `b` in
/// the order of `semver::Version`.
pub uninterp spec fn semver_precedes(a: Seq<char>, b: Seq<char>) -> bool;

/// A semantic version, together with the text it was read from.
pub struct ParsedVersion {
    text: String,
    version: semver::Version,
}

impl View for ParsedVersion {
    type V = Seq<char>;

    closed spec fn view(&self) -> Seq<char> {
        self.text@
    }
}

impl ParsedVersion {
    /// The text the version was read from.
    pub fn text(&self) -> (r: &str)
        ensures
            r@ == self@,
    {
        self.text.as_str()
    }
}

/// Reads a version with `semver::Version::parse`.
/// Trusted: the result is `Some` exactly where that function returns `Ok`, and
/// then holds the version it read together with `text`. This is the one place
/// where a `ParsedVersion` is made, so its version is always the one read from
/// its text.
#[verifier::external_body]
pub(crate) fn parse_version(text: &str) -> (r: Option<ParsedVersion>)
    ensures
        r is Some <==> semver_parses(text@),
        r matches Some(v) ==> v@ == text@,
{
    match semver::Version::parse(text) {
        Ok(version) => Some(ParsedVersion { text: text.to_string(), version }),
        Err(_) => None,
    }
}

/// Compares two versions with `<` of `semver::Version` (its derived order).
/// Trusted: the result is that order on the versions read from the two texts.
#[verifier::external_body]
fn version_lt(a: &ParsedVersion, b: &ParsedVersion) -> (r: bool)
    ensures
        r == semver_precedes(a@, b@),
{
    a.version < b.version
}

/// The message for a version that could not be read.
pub open spec fn version_error(version: Seq<char>, name: Seq<char>) -> Seq<char> {
    "Could not parse version `"@ + version + "` for `"@ + name + "`"@
}

/// The latest versions after using the version of dependency `d`: it replaces
/// the version kept for its name where there is none or an older one.
pub open spec fn with_dependency(m: Map<Seq<char>, Seq<char>>, d: DependencyView) -> Map<Seq<char>, Seq<char>> {
    if !m.contains_key(d.name) || semver_precedes(m[d.name], d.version) {
        m.insert(d.name, d.version)
    } else {
        m
    }
}

/// The latest versions after the first `k` dependencies `deps`, or the error for
/// the first of them whose version cannot be read.
pub open spec fn scan_dependencies(m: Map<Seq<char>, Seq<char>>, deps: Seq<DependencyView>, k: int) -> Result<
    Map<Seq<char>, Seq<char>>,
    Seq<char>,
>
    decreases k,
{
    if k <= 0 {
        Ok(m)
    } else {
        match scan_dependencies(m, deps, k - 1) {
            Err(e) => Err(e),
            Ok(m1) => if semver_parses(deps[k - 1].version) {
                Ok(with_dependency(m1, deps[k - 1]))
            } else {
                Err(version_error(deps[k - 1].version, deps[k - 1].name))
            },
        }
    }
}

/// The latest versions after the dependencies of the first `k` packages `ps`.
pub open spec fn scan_package_dependencies(m: Map<Seq<char>, Seq<char>>, ps: Seq<PackageView>, k: int) -> Result<
    Map<Seq<char>, Seq<char>>,
    Seq<char>,
>
    decreases k,
{
    if k <= 0 {
        Ok(m)
    } else {
        match scan_package_dependencies(m, ps, k - 1) {
            Err(e) => Err(e),
            Ok(m1) => scan_dependencies(m1, ps[k - 1].dependencies, ps[k - 1].dependencies.len() as int),
        }
    }
}

/// The versions after the first `k` packages `ps` set their own version.
pub open spec fn scan_packages(m: Map<Seq<char>, Seq<char>>, ps: Seq<PackageView>, k: int) -> Result<
    Map<Seq<char>, Seq<char>>,
    Seq<char>,
>
    decreases k,
{
    if k <= 0 {
        Ok(m)
    } else {
        match scan_packages(m, ps, k - 1) {
            Err(e) => Err(e),
            Ok(m1) => if semver_parses(ps[k - 1].version) {
                Ok(m1.insert(ps[k - 1].name, ps[k - 1].version))
            } else {
                Err(version_error(ps[k - 1].version, ps[k - 1].name))
            },
        }
    }
}

/// The new version of each library: the latest version that any package
/// depends on, overwritten by the version of the package itself.
pub open spec fn new_versions(ps: Seq<PackageView>) -> Result<Map<Seq<char>, Seq<char>>, Seq<char>> {
    match scan_package_dependencies(Map::empty(), ps, ps.len() as int) {
        Err(e) => Err(e),
        Ok(m) => scan_packages(m, ps, ps.len() as int),
    }
}

/// Setting the versions of packages keeps, for the name of package `j`, its
/// version, where no later package among the first `k` has that name.
pub proof fn lemma_scan_packages_keeps(m: Map<Seq<char>, Seq<char>>, ps: Seq<PackageView>, k: int, j: int)
    requires
        0 <= j < k <= ps.len(),
        forall|i: int| j < i < k ==> #[trigger] ps[i].name != ps[j].name,
        scan_packages(m, ps, k) is Ok,
    ensures
        scan_packages(m, ps, k)->Ok_0.contains_key(ps[j].name),
        scan_packages(m, ps, k)->Ok_0[ps[j].name] == ps[j].version,
    decreases k,
{
    if k - 1 > j {
        assert(ps[k - 1].name != ps[j].name);
        lemma_scan_packages_keeps(m, ps, k - 1, j);
    }
}

/// The new version of a listed library is the version of the library itself
/// (of the last package of its name), whatever versions its dependents use.
pub proof fn packages_keep_their_own_versions(ps: Seq<PackageView>, j: int)
    requires
        last_named(ps, ps[j].name, j),
        new_versions(ps) is Ok,
    ensures
        new_versions(ps)->Ok_0.contains_key(ps[j].name),
        new_versions(ps)->Ok_0[ps[j].name] == ps[j].version,
{
    let m = scan_package_dependencies(Map::empty(), ps, ps.len() as int)->Ok_0;
    lemma_scan_packages_keeps(m, ps, ps.len() as int, j);
}

/// Builds the message for a version that could not be read.
fn version_error_message(version: &str, name: &str) -> (r: String)
    ensures
        r@ == version_error(version@, name@),
{
    let mut r = String::from_str("Could not parse version `");
    r.append(version);
    r.append("` for `");
    r.append(name);
    r.append("`");
    r
}

/// Computes the new version of each library from dependency info.
pub fn library_versions(dependencies_data: &[dependencies::Package]) -> (res: Result<StringHashMap<ParsedVersion>, String>)
    ensures
        match (res, new_versions(packages_view(dependencies_data@))) {
            (Ok(m), Ok(v)) => m@.dom() == v.dom() && forall|k: Seq<char>| #[trigger] m@.contains_key(k) ==> m@[k]@ == v[k],
            (Err(e), Err(v)) => e@ == v,
            _ => false,
        },
{
    let ghost ps = packages_view(dependencies_data@);
    let mut new_versions: StringHashMap<ParsedVersion> = StringHashMap::new();
    let ghost mut m: Map<Seq<char>, Seq<char>> = Map::empty();
    let n = dependencies_data.len();
    let mut i: usize = 0;
    while i < n
        invariant
            n == dependencies_data@.len(),
            ps == packages_view(dependencies_data@),
            i <= n,
            scan_package_dependencies(Map::empty(), ps, i as int) == Ok::<_, Seq<char>>(m),
            new_versions@.dom() == m.dom(),
            forall|k: Seq<char>| #[trigger] new_versions@.contains_key(k) ==> new_versions@[k]@ == m[k],
        decreases n - i,
    {
        let package = &dependencies_data[i];
        let ghost deps = ps[i as int].dependencies;
        assert(deps == dependencies::deps_view(package.dependencies@));
        let ghost m0 = m;
        let nd = package.dependencies.len();
        let mut j: usize = 0;
        while j < nd
            invariant
                nd == deps.len(),
                deps == dependencies::deps_view(package.dependencies@),
                j <= nd,
                scan_dependencies(m0, deps, j as int) == Ok::<_, Seq<char>>(m),
                new_versions@.dom() == m.dom(),
                forall|k: Seq<char>| #[trigger] new_versions@.contains_key(k) ==> new_versions@[k]@ == m[k],
                ps == packages_view(dependencies_data@),
                i < n,
                n == dependencies_data@.len(),
                scan_package_dependencies(Map::empty(), ps, i as int) == Ok::<_, Seq<char>>(m0),
                deps == ps[i as int].dependencies,
            decreases nd - j,
        {
            let dep = &package.dependencies[j];
            assert(deps[j as int] == dep@);
            let version = match parse_version(dep.version.as_str()) {
                Some(v) => v,
                None => {
                    proof {
                        assert(scan_dependencies(m0, deps, nd as int) == Err::<Map<Seq<char>, Seq<char>>, Seq<char>>(version_error(dep.version@, dep.name@))) by {
                            lemma_scan_dependencies_err(m0, deps, j as int + 1, nd as int);
                        }
                        lemma_scan_package_dependencies_err(ps, i as int + 1, n as int);
                    }
                    return Err(version_error_message(dep.version.as_str(), dep.name.as_str()));
                },
            };
            let newer = match new_versions.get(dep.name.as_str()) {
                None => true,
                Some(v) => version_lt(v, &version),
            };
            if newer {
                new_versions.insert(String::from_str(dep.name.as_str()), version);
            }
            proof {
                m = with_dependency(m, dep@);
                assert(new_versions@.dom() =~= m.dom());
            }
            j = j + 1;
        }
        i = i + 1;
    }
    let ghost m1 = m;
    let mut i: usize = 0;
    while i < n
        invariant
            n == dependencies_data@.len(),
            ps == packages_view(dependencies_data@),
            i <= n,
            scan_package_dependencies(Map::empty(), ps, n as int) == Ok::<_, Seq<char>>(m1),
            scan_packages(m1, ps, i as int) == Ok::<_, Seq<char>>(m),
            new_versions@.dom() == m.dom(),
            forall|k: Seq<char>| #[trigger] new_versions@.contains_key(k) ==> new_versions@[k]@ == m[k],
        decreases n - i,
    {
        let package = &dependencies_data[i];
        assert(ps[i as int] == package@);
        let version = match parse_version(package.version.as_str()) {
            Some(v) => v,
            None => {
                proof {
                    lemma_scan_packages_err(m1, ps, i as int + 1, n as int);
                }
                return Err(version_error_message(package.version.as_str(), package.name.as_str()));
            },
        };
        new_versions.insert(String::from_str(package.name.as_str()), version);
        proof {
            m = m.insert(package@.name, package@.version);
            assert(new_versions@.dom() =~= m.dom());
        }
        i = i + 1;
    }
    Ok(new_versions)
}

/// Some dependency among the first `k` of `deps` is called `n` and uses version
/// `v`.
pub open spec fn among_dependencies(deps: Seq<DependencyView>, k: int, n: Seq<char>, v: Seq<char>) -> bool {
    exists|j: int| 0 <= j < k && #[trigger] deps[j].name == n && deps[j].version == v
}

/// Some dependency among the first `k` of `deps` is called `n`.
pub open spec fn named_among_dependencies(deps: Seq<DependencyView>, k: int, n: Seq<char>) -> bool {
    exists|j: int| 0 <= j < k && #[trigger] deps[j].name == n
}

/// Some dependency of the first `k` packages `ps` is called `n` and uses
/// version `v`.
pub open spec fn used_by_packages(ps: Seq<PackageView>, k: int, n: Seq<char>, v: Seq<char>) -> bool {
    exists|i: int| 0 <= i < k && among_dependencies(#[trigger] ps[i].dependencies, ps[i].dependencies.len() as int, n, v)
}

/// Some dependency of the first `k` packages `ps` is called `n`.
pub open spec fn named_by_packages(ps: Seq<PackageView>, k: int, n: Seq<char>) -> bool {
    exists|i: int| 0 <= i < k && named_among_dependencies(#[trigger] ps[i].dependencies, ps[i].dependencies.len() as int, n)
}

/// Some package among the first `k` of `ps` is called `n`.
pub open spec fn named_package(ps: Seq<PackageView>, k: int, n: Seq<char>) -> bool {
    exists|i: int| 0 <= i < k && #[trigger] ps[i].name == n
}

/// Scanning dependencies keeps the versions it had and adds versions that the
/// dependencies use, for their names.
pub proof fn lemma_scan_dependencies_values(m: Map<Seq<char>, Seq<char>>, deps: Seq<DependencyView>, k: int, n: Seq<char>)
    requires
        0 <= k <= deps.len(),
        scan_dependencies(m, deps, k) is Ok,
    ensures
        ({
            let m2 = scan_dependencies(m, deps, k)->Ok_0;
            &&& m2.contains_key(n) <==> (m.contains_key(n) || named_among_dependencies(deps, k, n))
            &&& m2.contains_key(n) ==> (m.contains_key(n) && m2[n] == m[n]) || among_dependencies(deps, k, n, m2[n])
        }),
    decreases k,
{
    if k > 0 {
        lemma_scan_dependencies_values(m, deps, k - 1, n);
        let m1 = scan_dependencies(m, deps, k - 1)->Ok_0;
        let d = deps[k - 1];
        let m2 = scan_dependencies(m, deps, k)->Ok_0;
        assert(m2 == with_dependency(m1, d));
        if named_among_dependencies(deps, k - 1, n) {
            let j = choose|j: int| 0 <= j < k - 1 && #[trigger] deps[j].name == n;
            assert(named_among_dependencies(deps, k, n)) by {
                assert(deps[j].name == n);
            }
        }
        if among_dependencies(deps, k - 1, n, m2[n]) {
            let j = choose|j: int| 0 <= j < k - 1 && #[trigger] deps[j].name == n && deps[j].version == m2[n];
            assert(among_dependencies(deps, k, n, m2[n])) by {
                assert(deps[j].name == n);
            }
        }
        if named_among_dependencies(deps, k, n) && !named_among_dependencies(deps, k - 1, n) {
            let j = choose|j: int| 0 <= j < k && #[trigger] deps[j].name == n;
            if j < k - 1 {
                assert(deps[j].name == n);
            }
        }
        if d.name == n {
            assert(named_among_dependencies(deps, k, n)) by {
                assert(deps[k - 1].name == n);
            }
            if m2[n] == d.version {
                assert(among_dependencies(deps, k, n, m2[n])) by {
                    assert(deps[k - 1].name == n);
                }
            }
        }
    }
}

/// After the dependencies of the first `k` packages, the versions kept are
/// those of the names that they depend on, each a version that one of them
/// uses.
pub proof fn lemma_scan_package_dependencies_values(ps: Seq<PackageView>, k: int, n: Seq<char>)
    requires
        0 <= k <= ps.len(),
        scan_package_dependencies(Map::empty(), ps, k) is Ok,
    ensures
        ({
            let m = scan_package_dependencies(Map::empty(), ps, k)->Ok_0;
            &&& m.contains_key(n) <==> named_by_packages(ps, k, n)
            &&& m.contains_key(n) ==> used_by_packages(ps, k, n, m[n])
        }),
    decreases k,
{
    if k > 0 {
        lemma_scan_package_dependencies_values(ps, k - 1, n);
        let m1 = scan_package_dependencies(Map::empty(), ps, k - 1)->Ok_0;
        let deps = ps[k - 1].dependencies;
        lemma_scan_dependencies_values(m1, deps, deps.len() as int, n);
        let m = scan_package_dependencies(Map::empty(), ps, k)->Ok_0;
        if named_by_packages(ps, k - 1, n) {
            let i = choose|i: int| 0 <= i < k - 1 && named_among_dependencies(#[trigger] ps[i].dependencies, ps[i].dependencies.len() as int, n);
            assert(named_by_packages(ps, k, n)) by {
                assert(named_among_dependencies(ps[i].dependencies, ps[i].dependencies.len() as int, n));
            }
        }
        if named_among_dependencies(deps, deps.len() as int, n) {
            assert(named_by_packages(ps, k, n)) by {
                assert(named_among_dependencies(ps[k - 1].dependencies, ps[k - 1].dependencies.len() as int, n));
            }
        }
        if named_by_packages(ps, k, n) {
            let i = choose|i: int| 0 <= i < k && named_among_dependencies(#[trigger] ps[i].dependencies, ps[i].dependencies.len() as int, n);
            if i < k - 1 {
                assert(named_among_dependencies(ps[i].dependencies, ps[i].dependencies.len() as int, n));
            }
        }
        if m.contains_key(n) {
            if m1.contains_key(n) && m[n] == m1[n] {
                let i = choose|i: int| 0 <= i < k - 1 && among_dependencies(#[trigger] ps[i].dependencies, ps[i].dependencies.len() as int, n, m1[n]);
                assert(among_dependencies(ps[i].dependencies, ps[i].dependencies.len() as int, n, m[n]));
            } else {
                assert(among_dependencies(ps[k - 1].dependencies, ps[k - 1].dependencies.len() as int, n, m[n]));
            }
        }
    }
}

/// Setting the versions of the first `k` packages adds their names and keeps
/// the version of every other name.
pub proof fn lemma_scan_packages_values(m: Map<Seq<char>, Seq<char>>, ps: Seq<PackageView>, k: int, n: Seq<char>)
    requires
        0 <= k <= ps.len(),
        scan_packages(m, ps, k) is Ok,
    ensures
        ({
            let m2 = scan_packages(m, ps, k)->Ok_0;
            &&& m2.contains_key(n) <==> (m.contains_key(n) || named_package(ps, k, n))
            &&& !named_package(ps, k, n) && m.contains_key(n) ==> m2[n] == m[n]
        }),
    decreases k,
{
    if k > 0 {
        lemma_scan_packages_values(m, ps, k - 1, n);
        if named_package(ps, k - 1, n) {
            let i = choose|i: int| 0 <= i < k - 1 && #[trigger] ps[i].name == n;
            assert(named_package(ps, k, n)) by {
                assert(ps[i].name == n);
            }
        }
        if ps[k - 1].name == n {
            assert(named_package(ps, k, n)) by {
                assert(ps[k - 1].name == n);
            }
        }
        if named_package(ps, k, n) && !named_package(ps, k - 1, n) {
            let i = choose|i: int| 0 <= i < k && #[trigger] ps[i].name == n;
            if i < k - 1 {
                assert(ps[i].name == n);
            }
        }
    }
}

/// The new versions are given exactly for the libraries that the ecosystem
/// names, as a package or as a dependency; a library that no package lists
/// keeps a version that one of its dependents uses.
pub proof fn new_versions_come_from_the_ecosystem(ps: Seq<PackageView>, n: Seq<char>)
    requires
        new_versions(ps) is Ok,
    ensures
        new_versions(ps)->Ok_0.contains_key(n) <==> (named_package(ps, ps.len() as int, n)
            || named_by_packages(ps, ps.len() as int, n)),
        new_versions(ps)->Ok_0.contains_key(n) && !named_package(ps, ps.len() as int, n)
            ==> used_by_packages(ps, ps.len() as int, n, new_versions(ps)->Ok_0[n]),
{
    let len = ps.len() as int;
    lemma_scan_package_dependencies_values(ps, len, n);
    let m = scan_package_dependencies(Map::empty(), ps, len)->Ok_0;
    lemma_scan_packages_values(m, ps, len, n);
}

/// Reading one more dependency never replaces the version kept for a library
/// by one that comes before it: the kept version stays, or moves to a version
/// that it precedes.
pub proof fn kept_versions_only_move_forward(m: Map<Seq<char>, Seq<char>>, deps: Seq<DependencyView>, k: int, n: Seq<char>)
    requires
        0 <= k < deps.len(),
        scan_dependencies(m, deps, k + 1) is Ok,
    ensures
        scan_dependencies(m, deps, k) is Ok,
        ({
            let before = scan_dependencies(m, deps, k)->Ok_0;
            let after = scan_dependencies(m, deps, k + 1)->Ok_0;
            before.contains_key(n) ==> after.contains_key(n) && (after[n] == before[n]
                || semver_precedes(before[n], after[n]))
        }),
{
}

/// The order of semantic versions is a strict order: it is transitive and no
/// version comes before itself.
pub open spec fn semver_order_is_strict() -> bool {
    &&& forall|a: Seq<char>, b: Seq<char>, c: Seq<char>|
        #[trigger] semver_precedes(a, b) && #[trigger] semver_precedes(b, c) ==> semver_precedes(a, c)
    &&& forall|a: Seq<char>| !#[trigger] semver_precedes(a, a)
}

/// After reading dependencies, the version kept for `n` comes before none of
/// the versions of `n` they use, nor of those for which that held before.
proof fn lemma_scan_dependencies_latest(
    m: Map<Seq<char>, Seq<char>>,
    deps: Seq<DependencyView>,
    k: int,
    n: Seq<char>,
    prior: spec_fn(Seq<char>) -> bool,
)
    requires
        semver_order_is_strict(),
        0 <= k <= deps.len(),
        scan_dependencies(m, deps, k) is Ok,
        forall|w: Seq<char>| #[trigger] prior(w) ==> m.contains_key(n) && !semver_precedes(m[n], w),
    ensures
        forall|w: Seq<char>|
            #[trigger] prior(w) || among_dependencies(deps, k, n, w) ==> scan_dependencies(m, deps, k)->Ok_0.contains_key(n)
                && !semver_precedes(scan_dependencies(m, deps, k)->Ok_0[n], w),
    decreases k,
{
    if k > 0 {
        lemma_scan_dependencies_latest(m, deps, k - 1, n, prior);
        let m1 = scan_dependencies(m, deps, k - 1)->Ok_0;
        let m2 = scan_dependencies(m, deps, k)->Ok_0;
        let d = deps[k - 1];
        assert(m2 == with_dependency(m1, d));
        assert forall|w: Seq<char>| #[trigger] prior(w) || among_dependencies(deps, k, n, w) implies m2.contains_key(n)
            && !semver_precedes(m2[n], w) by {
            let earlier = prior(w) || among_dependencies(deps, k - 1, n, w);
            if among_dependencies(deps, k, n, w) && !among_dependencies(deps, k - 1, n, w) {
                let j = choose|j: int| 0 <= j < k && #[trigger] deps[j].name == n && deps[j].version == w;
                if j < k - 1 {
                    assert(deps[j].name == n);
                    assert(among_dependencies(deps, k - 1, n, w));
                }
                assert(d.name == n && d.version == w);
            }
            if d.name == n {
                if !m1.contains_key(n) || semver_precedes(m1[n], d.version) {
                    assert(m2[n] == d.version);
                    assert(!semver_precedes(d.version, d.version));
                    if earlier && m1.contains_key(n) && semver_precedes(d.version, w) {
                        assert(semver_precedes(m1[n], w));
                    }
                }
            }
        }
    }
}

/// After the dependencies of the first `k` packages, the version kept for `n`
/// comes before none of the versions of `n` that they use.
proof fn lemma_scan_package_dependencies_latest(ps: Seq<PackageView>, k: int, n: Seq<char>)
    requires
        semver_order_is_strict(),
        0 <= k <= ps.len(),
        scan_package_dependencies(Map::empty(), ps, k) is Ok,
    ensures
        forall|w: Seq<char>|
            #[trigger] used_by_packages(ps, k, n, w) ==> scan_package_dependencies(Map::empty(), ps, k)->Ok_0.contains_key(n)
                && !semver_precedes(scan_package_dependencies(Map::empty(), ps, k)->Ok_0[n], w),
    decreases k,
{
    if k > 0 {
        lemma_scan_package_dependencies_latest(ps, k - 1, n);
        let m1 = scan_package_dependencies(Map::empty(), ps, k - 1)->Ok_0;
        let deps = ps[k - 1].dependencies;
        let prior = |w: Seq<char>| used_by_packages(ps, k - 1, n, w);
        lemma_scan_dependencies_latest(m1, deps, deps.len() as int, n, prior);
        let m = scan_package_dependencies(Map::empty(), ps, k)->Ok_0;
        assert forall|w: Seq<char>| #[trigger] used_by_packages(ps, k, n, w) implies m.contains_key(n)
            && !semver_precedes(m[n], w) by {
            let i = choose|i: int| 0 <= i < k && among_dependencies(#[trigger] ps[i].dependencies, ps[i].dependencies.len() as int, n, w);
            if i < k - 1 {
                assert(among_dependencies(ps[i].dependencies, ps[i].dependencies.len() as int, n, w));
                assert(prior(w));
            } else {
                assert(among_dependencies(deps, deps.len() as int, n, w));
            }
        }
    }
}

/// A library that no package lists gets the latest version that any package
/// depends on: none of the versions used for it comes after the new version.
/// (This rests on the order of semantic versions being a strict order.)
pub proof fn unlisted_libraries_get_the_latest_version(ps: Seq<PackageView>, n: Seq<char>, w: Seq<char>)
    requires
        semver_order_is_strict(),
        new_versions(ps) is Ok,
        !named_package(ps, ps.len() as int, n),
        used_by_packages(ps, ps.len() as int, n, w),
    ensures
        new_versions(ps)->Ok_0.contains_key(n),
        !semver_precedes(new_versions(ps)->Ok_0[n], w),
{
    let len = ps.len() as int;
    lemma_scan_package_dependencies_latest(ps, len, n);
    let m = scan_package_dependencies(Map::empty(), ps, len)->Ok_0;
    lemma_scan_packages_values(m, ps, len, n);
}

/// Once a dependency's version cannot be read, later dependencies keep that error.
pub proof fn lemma_scan_dependencies_err(m: Map<Seq<char>, Seq<char>>, deps: Seq<DependencyView>, j: int, k: int)
    requires
        1 <= j <= k,
        scan_dependencies(m, deps, j) is Err,
    ensures
        scan_dependencies(m, deps, k) == scan_dependencies(m, deps, j),
    decreases k - j,
{
    if j < k {
        lemma_scan_dependencies_err(m, deps, j, k - 1);
    }
}

/// Once a version cannot be read, later packages keep that error.
pub proof fn lemma_scan_package_dependencies_err(ps: Seq<PackageView>, j: int, k: int)
    requires
        1 <= j <= k,
        scan_package_dependencies(Map::empty(), ps, j) is Err,
    ensures
        scan_package_dependencies(Map::empty(), ps, k) == scan_package_dependencies(Map::empty(), ps, j),
    decreases k - j,
{
    if j < k {
        lemma_scan_package_dependencies_err(ps, j, k - 1);
    }
}

/// Once a package's version cannot be read, later packages keep that error.
pub proof fn lemma_scan_packages_err(m: Map<Seq<char>, Seq<char>>, ps: Seq<PackageView>, j: int, k: int)
    requires
        1 <= j <= k,
        scan_packages(m, ps, j) is Err,
    ensures
        scan_packages(m, ps, k) == scan_packages(m, ps, j),
    decreases k - j,
{
    if j < k {
        lemma_scan_packages_err(m, ps, j, k - 1);
    }
}

/// The update text of dependency `d`, whose library moves to version `new`:
/// its bump from the version it uses to the new one; `has_next` where another
/// one follows it.
pub open spec fn dependency_update_text(d: DependencyView, new: Seq<char>, has_next: bool) -> Seq<char> {
    "   "@ + json_string(d.name) + ": {\n"@ + "    \"bump\": {\n"@ + "     \"old\": "@ + json_string(
        d.version,
    ) + ",\n"@ + "     \"new\": "@ + json_string(new) + "\n"@ + "    }\n"@ + "   }"@ + (if has_next {
        ",\n"@
    } else {
        "\n"@
    })
}

/// The update text of the first `k` dependencies `deps`, with the new versions
/// `m`.
pub open spec fn dependencies_update_text(deps: Seq<DependencyView>, m: Map<Seq<char>, Seq<char>>, k: int) -> Seq<char>
    decreases k,
{
    if k <= 0 {
        Seq::empty()
    } else {
        dependencies_update_text(deps, m, k - 1) + dependency_update_text(
            deps[k - 1],
            m[deps[k - 1].name],
            k != deps.len(),
        )
    }
}

/// The head of the update text of package `p`: its name, its update order and
/// its bump from its version to its new one in `m`.
pub open spec fn package_update_head(p: PackageView, order: nat, m: Map<Seq<char>, Seq<char>>) -> Seq<char> {
    " "@ + json_string(p.name) + ": {\n"@ + "  \"order\": "@ + decimal(order) + ",\n"@ + "  \"bump\": {\n"@
        + "   \"old\": "@ + json_string(p.version) + ",\n"@ + "   \"new\": "@ + json_string(m[p.name])
        + "\n"@ + "  },\n"@
}

/// The update text of package `p` with update order `order` and the new
/// versions `m`: its head, then the bumps of its dependencies; `has_next` where
/// another one follows it.
pub open spec fn package_update_text(p: PackageView, order: nat, m: Map<Seq<char>, Seq<char>>, has_next: bool) -> Seq<char> {
    package_update_head(p, order, m) + "  \"dependencies\": {\n"@ + dependencies_update_text(
        p.dependencies,
        m,
        p.dependencies.len() as int,
    ) + "  }\n"@ + " }"@ + (if has_next {
        ",\n"@
    } else {
        "\n"@
    })
}

/// The update text of the first `k` packages `ps`, each with its depth as its
/// update order.
pub open spec fn packages_update_text(ps: Seq<PackageView>, m: Map<Seq<char>, Seq<char>>, k: int) -> Seq<char>
    decreases k,
{
    if k <= 0 {
        Seq::empty()
    } else {
        packages_update_text(ps, m, k - 1) + package_update_text(
            ps[k - 1],
            depth(ps, k - 1),
            m,
            k != ps.len(),
        )
    }
}

/// The update info of packages `ps` with the new versions `m`: a JSON object
/// with a member for each package, in the order of `ps`, holding its update
/// order (its depth: dependencies come first), its bump and the bumps of its
/// dependencies.
pub open spec fn update_info_text(ps: Seq<PackageView>, m: Map<Seq<char>, Seq<char>>) -> Seq<char> {
    "{\n"@ + packages_update_text(ps, m, ps.len() as int) + "}\n"@
}

/// The new versions as they were computed, as text.
pub open spec fn versions_match(versions: StringHashMap<ParsedVersion>, m: Map<Seq<char>, Seq<char>>) -> bool {
    &&& versions@.dom() == m.dom()
    &&& forall|k: Seq<char>| #[trigger] versions@.contains_key(k) ==> versions@[k]@ == m[k]
}

/// Writes the new version kept for `name`.
fn write_new_version(
    w: &mut String,
    versions: &StringHashMap<ParsedVersion>,
    name: &str,
    Ghost(m): Ghost<Map<Seq<char>, Seq<char>>>,
)
    requires
        m.contains_key(name@),
        versions_match(*versions, m),
    ensures
        final(w)@ == old(w)@ + json_string(m[name@]),
{
    match versions.get(name) {
        Some(v) => write_json_string(w, v.text()),
        None => {},
    }
}

/// Writes the update text of one dependency.
#[verifier::spinoff_prover]
#[verifier::rlimit(50)]
fn write_dependency_update(
    w: &mut String,
    d: &dependencies::Dependency,
    versions: &StringHashMap<ParsedVersion>,
    has_next: bool,
    Ghost(m): Ghost<Map<Seq<char>, Seq<char>>>,
)
    requires
        m.contains_key(d.name@),
        versions_match(*versions, m),
    ensures
        final(w)@ == old(w)@ + dependency_update_text(d@, m[d.name@], has_next),
{
    let ghost before = w@;
    w.append("   ");
    write_json_string(w, d.name.as_str());
    w.append(": {\n");
    w.append("    \"bump\": {\n");
    w.append("     \"old\": ");
    let ghost a = w@;
    assert(a =~= before + ("   "@ + json_string(d.name@) + ": {\n"@ + "    \"bump\": {\n"@ + "     \"old\": "@));
    write_json_string(w, d.version.as_str());
    w.append(",\n");
    w.append("     \"new\": ");
    write_new_version(w, versions, d.name.as_str(), Ghost(m));
    let ghost b = w@;
    assert(b =~= before + ("   "@ + json_string(d.name@) + ": {\n"@ + "    \"bump\": {\n"@ + "     \"old\": "@
        + json_string(d.version@) + ",\n"@ + "     \"new\": "@ + json_string(m[d.name@])));
    w.append("\n");
    w.append("    }\n");
    w.append("   }");
    if has_next {
        w.append(",\n");
    } else {
        w.append("\n");
    }
    assert(w@ =~= before + dependency_update_text(d@, m[d.name@], has_next));
}

/// Writes the update text of dependencies.
fn write_dependencies_update(
    w: &mut String,
    deps: &Vec<dependencies::Dependency>,
    versions: &StringHashMap<ParsedVersion>,
    Ghost(m): Ghost<Map<Seq<char>, Seq<char>>>,
)
    requires
        forall|j: int| 0 <= j < deps@.len() ==> m.contains_key(#[trigger] deps@[j].name@),
        versions_match(*versions, m),
    ensures
        final(w)@ == old(w)@ + dependencies_update_text(
            dependencies::deps_view(deps@),
            m,
            deps@.len() as int,
        ),
{
    let ghost ds = dependencies::deps_view(deps@);
    let n = deps.len();
    let mut i: usize = 0;
    assert(old(w)@ + Seq::<char>::empty() =~= old(w)@);
    while i < n
        invariant
            n == deps@.len(),
            ds == dependencies::deps_view(deps@),
            forall|j: int| 0 <= j < deps@.len() ==> m.contains_key(#[trigger] deps@[j].name@),
            versions_match(*versions, m),
            i <= n,
            w@ == old(w)@ + dependencies_update_text(ds, m, i as int),
        decreases n - i,
    {
        let d = &deps[i];
        assert(m.contains_key(deps@[i as int].name@));
        write_dependency_update(w, d, versions, i + 1 != n, Ghost(m));
        i = i + 1;
        proof {
            assert(ds[i - 1] == d@);
            assert(w@ =~= old(w)@ + dependencies_update_text(ds, m, i as int));
        }
    }
}

/// Writes the head of the update text of one package.
#[verifier::spinoff_prover]
#[verifier::rlimit(50)]
fn write_package_update_head(
    w: &mut String,
    p: &dependencies::Package,
    order: u32,
    versions: &StringHashMap<ParsedVersion>,
    Ghost(m): Ghost<Map<Seq<char>, Seq<char>>>,
)
    requires
        m.contains_key(p.name@),
        versions_match(*versions, m),
    ensures
        final(w)@ == old(w)@ + package_update_head(p@, order as nat, m),
{
    let ghost before = w@;
    w.append(" ");
    write_json_string(w, p.name.as_str());
    w.append(": {\n");
    w.append("  \"order\": ");
    push_decimal(w, order as usize);
    w.append(",\n");
    w.append("  \"bump\": {\n");
    let ghost a = w@;
    assert(a =~= before + (" "@ + json_string(p@.name) + ": {\n"@ + "  \"order\": "@ + decimal(order as nat)
        + ",\n"@ + "  \"bump\": {\n"@));
    w.append("   \"old\": ");
    write_json_string(w, p.version.as_str());
    w.append(",\n");
    w.append("   \"new\": ");
    write_new_version(w, versions, p.name.as_str(), Ghost(m));
    w.append("\n");
    w.append("  },\n");
    assert(w@ =~= before + package_update_head(p@, order as nat, m));
}

/// Writes the update text of one package.
#[verifier::spinoff_prover]
#[verifier::rlimit(50)]
fn write_package_update(
    w: &mut String,
    p: &dependencies::Package,
    order: u32,
    versions: &StringHashMap<ParsedVersion>,
    has_next: bool,
    Ghost(m): Ghost<Map<Seq<char>, Seq<char>>>,
)
    requires
        m.contains_key(p.name@),
        forall|j: int|
            0 <= j < p.dependencies@.len() ==> m.contains_key(#[trigger] p.dependencies@[j].name@),
        versions_match(*versions, m),
    ensures
        final(w)@ == old(w)@ + package_update_text(p@, order as nat, m, has_next),
{
    let ghost before = w@;
    write_package_update_head(w, p, order, versions, Ghost(m));
    w.append("  \"dependencies\": {\n");
    let ghost a = w@;
    write_dependencies_update(w, &p.dependencies, versions, Ghost(m));
    let ghost b = w@;
    w.append("  }\n");
    w.append(" }");
    if has_next {
        w.append(",\n");
    } else {
        w.append("\n");
    }
    assert(w@ =~= before + package_update_text(p@, order as nat, m, has_next));
}

/// Writes the update info of the packages `dependencies_data`, with their
/// depths `depths` and the new versions `versions`.
fn write_update_info(
    w: &mut String,
    dependencies_data: &[dependencies::Package],
    depths: &HashMap<usize, u32>,
    versions: &StringHashMap<ParsedVersion>,
    Ghost(m): Ghost<Map<Seq<char>, Seq<char>>>,
)
    requires
        forall|i: usize| #[trigger] depths@.contains_key(i) <==> i < dependencies_data@.len(),
        forall|i: usize|
            i < dependencies_data@.len() ==> #[trigger] depths@[i] == depth(
                packages_view(dependencies_data@),
                i as int,
            ),
        forall|i: int|
            0 <= i < dependencies_data@.len() ==> m.contains_key(#[trigger] dependencies_data@[i].name@),
        forall|i: int, j: int|
            0 <= i < dependencies_data@.len() && 0 <= j < dependencies_data@[i].dependencies@.len()
                ==> m.contains_key(#[trigger] dependencies_data@[i].dependencies@[j].name@),
        versions_match(*versions, m),
    ensures
        final(w)@ == old(w)@ + update_info_text(packages_view(dependencies_data@), m),
{
    let ghost ps = packages_view(dependencies_data@);
    w.append("{\n");
    let ghost start = w@;
    let n = dependencies_data.len();
    let mut i: usize = 0;
    assert(start + Seq::<char>::empty() =~= start);
    while i < n
        invariant
            n == dependencies_data@.len(),
            ps == packages_view(dependencies_data@),
            forall|i: usize| #[trigger] depths@.contains_key(i) <==> i < dependencies_data@.len(),
            forall|i: usize| i < dependencies_data@.len() ==> #[trigger] depths@[i] == depth(ps, i as int),
            forall|i: int|
                0 <= i < dependencies_data@.len() ==> m.contains_key(#[trigger] dependencies_data@[i].name@),
            forall|i: int, j: int|
                0 <= i < dependencies_data@.len() && 0 <= j < dependencies_data@[i].dependencies@.len()
                    ==> m.contains_key(#[trigger] dependencies_data@[i].dependencies@[j].name@),
            versions_match(*versions, m),
            i <= n,
            w@ == start + packages_update_text(ps, m, i as int),
        decreases n - i,
    {
        let p = &dependencies_data[i];
        assert(depths@.contains_key(i));
        let order = match depths.get(&i) {
            Some(d) => *d,
            None => 0,
        };
        assert(m.contains_key(dependencies_data@[i as int].name@));
        assert forall|j: int| 0 <= j < p.dependencies@.len() implies m.contains_key(#[trigger] p.dependencies@[j].name@) by {
            assert(m.contains_key(dependencies_data@[i as int].dependencies@[j].name@));
        }
        write_package_update(w, p, order, versions, i + 1 != n, Ghost(m));
        i = i + 1;
        proof {
            assert(ps[i - 1] == p@);
            assert(w@ =~= start + packages_update_text(ps, m, i as int));
        }
    }
    w.append("}\n");
    assert(w@ =~= old(w)@ + update_info_text(ps, m));
}

/// In update info, package `k` is written with its depth as its update order:
/// the text of the first `k + 1` packages is that of the first `k`, then that
/// of package `k` with order `depth(ps, k)`.
pub proof fn update_info_orders_are_depths(ps: Seq<PackageView>, m: Map<Seq<char>, Seq<char>>, k: int)
    requires
        0 <= k < ps.len(),
    ensures
        packages_update_text(ps, m, k + 1) == packages_update_text(ps, m, k) + package_update_text(
            ps[k],
            depth(ps, k),
            m,
            k + 1 != ps.len(),
        ),
{
}

/// Where the greatest depth of dependencies is more than nought, some
/// dependency's name has that depth.
proof fn lemma_deps_height_attained(ps: Seq<PackageView>, deps: Seq<DependencyView>, m: int, fuel: nat, v: nat)
    requires
        deps_height(ps, deps, m, fuel) == Some(v),
        v > 0,
    ensures
        exists|k: int| 0 <= k < m && #[trigger] name_height(ps, deps[k].name, ps.len() as int, fuel) == Some(v),
    decreases m,
{
    if m > 0 {
        let b = name_height(ps, deps[m - 1].name, ps.len() as int, fuel);
        if b == Some(v) {
            assert(name_height(ps, deps[m - 1].name, ps.len() as int, fuel) == Some(v));
        } else {
            lemma_deps_height_attained(ps, deps, m - 1, fuel, v);
            let k = choose|k: int| 0 <= k < m - 1 && #[trigger] name_height(ps, deps[k].name, ps.len() as int, fuel) == Some(v);
            assert(name_height(ps, deps[k].name, ps.len() as int, fuel) == Some(v));
        }
    }
}

/// Where the depth of a name among the first `m` packages is more than
/// nought, it is that of the last of them with that name.
proof fn lemma_name_height_attained(ps: Seq<PackageView>, name: Seq<char>, m: int, fuel: nat, v: nat)
    requires
        m <= ps.len(),
        name_height(ps, name, m, fuel) == Some(v),
        v > 0,
    ensures
        exists|j: int|
            0 <= j < m && #[trigger] ps[j].name == name && (forall|q: int| j < q < m ==> ps[q].name != name)
                && height(ps, j, fuel) == Some(v),
    decreases m,
{
    if m > 0 {
        if ps[m - 1].name == name {
            assert(ps[m - 1].name == name);
        } else {
            lemma_name_height_attained(ps, name, m - 1, fuel, v);
            let j = choose|j: int|
                0 <= j < m - 1 && #[trigger] ps[j].name == name && (forall|q: int| j < q < m - 1 ==> ps[q].name != name)
                    && height(ps, j, fuel) == Some(v);
            assert(ps[j].name == name);
        }
    }
}

/// Without dependency cycles, the depth of a package is one more than the
/// greatest depth of the listed packages it depends on (the last one of each
/// dependency's name), and 1 where it depends on none: every such dependency
/// lies less deep, and one of them, if any depth is above nought, lies exactly
/// one less deep.
pub proof fn depth_is_one_more_than_the_deepest_dependency(ps: Seq<PackageView>, i: int)
    requires
        acyclic(ps),
        0 <= i < ps.len(),
    ensures
        depth(ps, i) >= 1,
        forall|k: int, j: int|
            0 <= k < ps[i].dependencies.len() && #[trigger] last_named(ps, ps[i].dependencies[k].name, j)
                ==> depth(ps, j) < depth(ps, i),
        depth(ps, i) == 1 || exists|k: int, j: int|
            0 <= k < ps[i].dependencies.len() && #[trigger] last_named(ps, ps[i].dependencies[k].name, j)
                && depth(ps, i) == depth(ps, j) + 1,
{
    let fuel = (ps.len() + 1) as nat;
    let f1 = (fuel - 1) as nat;
    let deps = ps[i].dependencies;
    assert(height(ps, i, fuel) is Some);
    let d = deps_height(ps, deps, deps.len() as int, f1)->0;
    assert forall|k: int, j: int|
        0 <= k < ps[i].dependencies.len() && #[trigger] last_named(ps, ps[i].dependencies[k].name, j)
        implies depth(ps, j) < depth(ps, i) by {
        dependencies_lie_less_deep(ps, i, k, j);
    }
    if d > 0 {
        lemma_deps_height_attained(ps, deps, deps.len() as int, f1, d);
        let k = choose|k: int| 0 <= k < deps.len() && #[trigger] name_height(ps, deps[k].name, ps.len() as int, f1) == Some(d);
        lemma_name_height_attained(ps, deps[k].name, ps.len() as int, f1, d);
        let j = choose|j: int|
            0 <= j < ps.len() && #[trigger] ps[j].name == deps[k].name && (forall|q: int| j < q < ps.len() ==> ps[q].name != deps[k].name)
                && height(ps, j, f1) == Some(d);
        assert(last_named(ps, deps[k].name, j));
        assert(height(ps, j, fuel) is Some);
        lemma_height_unique(ps, j, f1, fuel);
        assert(depth(ps, i) == depth(ps, j) + 1);
    }
}

/// What generating update info from packages `ps` gives: the update info with
/// the new versions, or the error of the first version that cannot be read.
pub open spec fn update_result(ps: Seq<PackageView>) -> Result<Seq<char>, Seq<char>> {
    match new_versions(ps) {
        Ok(m) => Ok(update_info_text(ps, m)),
        Err(e) => Err(e),
    }
}

/// Two lists of dependencies with the same names and versions, one by one.
pub open spec fn same_dependencies(d1: Seq<DependencyView>, d2: Seq<DependencyView>) -> bool {
    &&& d1.len() == d2.len()
    &&& forall|j: int|
        0 <= j < d1.len() ==> #[trigger] d1[j].name == d2[j].name && d1[j].version == d2[j].version
}

/// Two lists of packages with the same names, versions and dependencies (by
/// name and version), one by one; dev dependencies and versions to ignore may
/// differ.
pub open spec fn same_update_input(ps1: Seq<PackageView>, ps2: Seq<PackageView>) -> bool {
    &&& ps1.len() == ps2.len()
    &&& forall|i: int|
        0 <= i < ps1.len() ==> {
            &&& #[trigger] ps1[i].name == ps2[i].name
            &&& ps1[i].version == ps2[i].version
            &&& same_dependencies(ps1[i].dependencies, ps2[i].dependencies)
        }
}

/// Scanning dependencies reads only their names and versions.
proof fn lemma_scan_dependencies_same(m: Map<Seq<char>, Seq<char>>, d1: Seq<DependencyView>, d2: Seq<DependencyView>, k: int)
    requires
        same_dependencies(d1, d2),
        0 <= k <= d1.len(),
    ensures
        scan_dependencies(m, d1, k) == scan_dependencies(m, d2, k),
    decreases k,
{
    if k > 0 {
        lemma_scan_dependencies_same(m, d1, d2, k - 1);
        assert(d1[k - 1].name == d2[k - 1].name);
    }
}

/// Scanning the dependencies of packages reads only their names and versions.
proof fn lemma_scan_package_dependencies_same(ps1: Seq<PackageView>, ps2: Seq<PackageView>, k: int)
    requires
        same_update_input(ps1, ps2),
        0 <= k <= ps1.len(),
    ensures
        scan_package_dependencies(Map::empty(), ps1, k) == scan_package_dependencies(Map::empty(), ps2, k),
    decreases k,
{
    if k > 0 {
        lemma_scan_package_dependencies_same(ps1, ps2, k - 1);
        assert(ps1[k - 1].name == ps2[k - 1].name);
        match scan_package_dependencies(Map::empty(), ps1, k - 1) {
            Ok(m) => {
                let d1 = ps1[k - 1].dependencies;
                lemma_scan_dependencies_same(m, d1, ps2[k - 1].dependencies, d1.len() as int);
            },
            Err(_) => {},
        }
    }
}

/// Setting the versions of packages reads only their names and versions.
proof fn lemma_scan_packages_same(m: Map<Seq<char>, Seq<char>>, ps1: Seq<PackageView>, ps2: Seq<PackageView>, k: int)
    requires
        same_update_input(ps1, ps2),
        0 <= k <= ps1.len(),
    ensures
        scan_packages(m, ps1, k) == scan_packages(m, ps2, k),
    decreases k,
{
    if k > 0 {
        lemma_scan_packages_same(m, ps1, ps2, k - 1);
        assert(ps1[k - 1].name == ps2[k - 1].name);
    }
}

/// Depths read only the names of packages and dependencies.
proof fn lemma_height_same(ps1: Seq<PackageView>, ps2: Seq<PackageView>, i: int, fuel: nat)
    requires
        same_update_input(ps1, ps2),
    ensures
        height(ps1, i, fuel) == height(ps2, i, fuel),
    decreases fuel, 0int, 0int,
{
    if fuel == 0 || i < 0 || i >= ps1.len() {
    } else {
        assert(ps1[i].name == ps2[i].name);
        let d1 = ps1[i].dependencies;
        lemma_deps_height_same(ps1, ps2, d1, ps2[i].dependencies, d1.len() as int, (fuel - 1) as nat);
    }
}

/// The greatest depth of dependencies reads only names.
proof fn lemma_deps_height_same(
    ps1: Seq<PackageView>,
    ps2: Seq<PackageView>,
    d1: Seq<DependencyView>,
    d2: Seq<DependencyView>,
    k: int,
    fuel: nat,
)
    requires
        same_update_input(ps1, ps2),
        same_dependencies(d1, d2),
        k <= d1.len(),
    ensures
        deps_height(ps1, d1, k, fuel) == deps_height(ps2, d2, k, fuel),
    decreases fuel, 2int, k,
{
    if k > 0 {
        lemma_deps_height_same(ps1, ps2, d1, d2, k - 1, fuel);
        assert(d1[k - 1].name == d2[k - 1].name);
        lemma_name_height_same(ps1, ps2, d1[k - 1].name, ps1.len() as int, fuel);
    }
}

/// The depth of a name reads only names.
proof fn lemma_name_height_same(ps1: Seq<PackageView>, ps2: Seq<PackageView>, name: Seq<char>, m: int, fuel: nat)
    requires
        same_update_input(ps1, ps2),
        m <= ps1.len(),
    ensures
        name_height(ps1, name, m, fuel) == name_height(ps2, name, m, fuel),
    decreases fuel, 1int, m,
{
    if m > 0 {
        lemma_name_height_same(ps1, ps2, name, m - 1, fuel);
        assert(ps1[m - 1].name == ps2[m - 1].name);
        lemma_height_same(ps1, ps2, m - 1, fuel);
    }
}

/// The update text of dependencies reads only their names and versions.
proof fn lemma_dependencies_update_text_same(d1: Seq<DependencyView>, d2: Seq<DependencyView>, m: Map<Seq<char>, Seq<char>>, k: int)
    requires
        same_dependencies(d1, d2),
        0 <= k <= d1.len(),
    ensures
        dependencies_update_text(d1, m, k) == dependencies_update_text(d2, m, k),
    decreases k,
{
    if k > 0 {
        lemma_dependencies_update_text_same(d1, d2, m, k - 1);
        assert(d1[k - 1].name == d2[k - 1].name);
    }
}

/// The update text of packages reads only names, versions and depths.
proof fn lemma_packages_update_text_same(ps1: Seq<PackageView>, ps2: Seq<PackageView>, m: Map<Seq<char>, Seq<char>>, k: int)
    requires
        same_update_input(ps1, ps2),
        0 <= k <= ps1.len(),
    ensures
        packages_update_text(ps1, m, k) == packages_update_text(ps2, m, k),
    decreases k,
{
    if k > 0 {
        lemma_packages_update_text_same(ps1, ps2, m, k - 1);
        assert(ps1[k - 1].name == ps2[k - 1].name);
        let d1 = ps1[k - 1].dependencies;
        lemma_dependencies_update_text_same(d1, ps2[k - 1].dependencies, m, d1.len() as int);
        lemma_height_same(ps1, ps2, k - 1, (ps1.len() + 1) as nat);
    }
}

/// Update info reads only the names and versions of the packages and of their
/// dependencies: dev dependencies and versions to ignore play no part, neither
/// in whether the packages form a cycle nor in what generating gives.
pub proof fn update_reads_only_names_and_versions(ps1: Seq<PackageView>, ps2: Seq<PackageView>)
    requires
        same_update_input(ps1, ps2),
    ensures
        acyclic(ps1) == acyclic(ps2),
        update_result(ps1) == update_result(ps2),
{
    let len = ps1.len() as int;
    lemma_scan_package_dependencies_same(ps1, ps2, len);
    match scan_package_dependencies(Map::empty(), ps1, len) {
        Ok(m) => {
            lemma_scan_packages_same(m, ps1, ps2, len);
        },
        Err(_) => {},
    }
    let fuel = (len + 1) as nat;
    if acyclic(ps1) {
        assert forall|i: int| 0 <= i < ps2.len() implies #[trigger] height(ps2, i, (ps2.len() + 1) as nat) is Some by {
            lemma_height_same(ps1, ps2, i, fuel);
            assert(height(ps1, i, (ps1.len() + 1) as nat) is Some);
        }
    }
    if acyclic(ps2) {
        assert forall|i: int| 0 <= i < ps1.len() implies #[trigger] height(ps1, i, (ps1.len() + 1) as nat) is Some by {
            lemma_height_same(ps1, ps2, i, fuel);
            assert(height(ps2, i, (ps2.len() + 1) as nat) is Some);
        }
    }
    match new_versions(ps1) {
        Ok(m) => {
            lemma_packages_update_text_same(ps1, ps2, m, len);
        },
        Err(_) => {},
    }
}

/// Generates update info from dependency info text: for each package, in the
/// order of the text, its update order (its depth, so that dependencies come
/// first), its bump from its version to its new one, and the bumps of its
/// dependencies from the versions they use to their new ones. The new version
/// of a library is the latest version that any package depends on, overwritten
/// by the version of the package itself. An error comes from the first version
/// that cannot be read. The text must be a dependency info document (a caller
/// tests that with `read_dependency_info`), and the packages must not depend on
/// each other in a cycle (a caller tests that with `is_acyclic`: with a cycle,
/// the depth of a package is not defined).
pub fn generate_update_info_from(dependency_info_text: &str) -> (res: Result<String, String>)
    requires
        dependency_info(dependency_info_text@) is Some,
        acyclic(dependency_info(dependency_info_text@)->Some_0),
        dependency_info(dependency_info_text@)->Some_0.len() < u32::MAX,
    ensures
        match res {
            Ok(s) => update_result(dependency_info(dependency_info_text@)->Some_0) == Ok::<
                Seq<char>,
                Seq<char>,
            >(s@),
            Err(e) => update_result(dependency_info(dependency_info_text@)->Some_0) == Err::<
                Seq<char>,
                Seq<char>,
            >(e@),
        },
{
    let ghost ps = dependency_info(dependency_info_text@)->Some_0;
    let data = match read_dependency_info(dependency_info_text) {
        Some(data) => data,
        None => {
            return Err(String::new());
        },
    };
    proof {
        converting_package_meta_gives_the_packages(ps);
    }
    let mut ignored: Vec<crate::meta::Range> = Vec::new();
    let dependencies_data = match convert(data.as_slice(), &mut ignored) {
        Ok(v) => v,
        Err(()) => {
            return Err(String::from_str("Could not convert dependency info"));
        },
    };
    assert(packages_view(dependencies_data@) == ps);
    let depths = library_depths(dependencies_data.as_slice());
    let versions = match library_versions(dependencies_data.as_slice()) {
        Ok(v) => v,
        Err(e) => {
            return Err(e);
        },
    };
    let ghost m = new_versions(ps)->Ok_0;
    proof {
        let len = ps.len() as int;
        assert forall|i: int| 0 <= i < dependencies_data@.len() implies m.contains_key(#[trigger] dependencies_data@[i].name@) by {
            let n = dependencies_data@[i].name@;
            assert(ps[i].name == n);
            assert(named_package(ps, len, n));
            new_versions_come_from_the_ecosystem(ps, n);
        }
        assert forall|i: int, j: int|
            0 <= i < dependencies_data@.len() && 0 <= j < dependencies_data@[i].dependencies@.len()
                implies m.contains_key(#[trigger] dependencies_data@[i].dependencies@[j].name@) by {
            let n = dependencies_data@[i].dependencies@[j].name@;
            assert(ps[i].dependencies == dependencies::deps_view(dependencies_data@[i].dependencies@));
            assert(ps[i].dependencies[j].name == n);
            assert(named_among_dependencies(ps[i].dependencies, ps[i].dependencies.len() as int, n));
            assert(named_by_packages(ps, len, n));
            new_versions_come_from_the_ecosystem(ps, n);
        }
    }
    let mut res = String::new();
    write_update_info(&mut res, dependencies_data.as_slice(), &depths, &versions, Ghost(m));
    assert(res@ =~= update_info_text(ps, m));
    Ok(res)
}

} // verus!
