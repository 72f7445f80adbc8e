//! Building hoisted installation trees from the pinned graph: cycles
//! along the ancestor chain are cut, unsupported optional packages are
//! skipped, unsupported required packages fail, and children hoisted
//! to the top level are pruned where they occur nested.

use vstd::prelude::*;
use vstd::string::*;
use crate::errors::{ErrV, ResolveError};
use crate::kmap::KeyMap;
use crate::package::{
    dup_string_map, Bin, BinV, InfoV, PackageInfo, PinnedV, PlatformMap, VersionedPackageInfo,
};
use crate::plan::{DepV, Dependency, DependencyTree, TreeV};
use crate::resolve::Graph;
use crate::specifier::VersionSpecifier;
use crate::strutil::str_eq;
use crate::version::{
    lemma_version_lt_irrefl, lemma_version_lt_trans, version_lt, version_text, Version, VersionV,
};

verus! {

/// Equality of two platform constraint sets.
pub fn eq_platform_map(a: &PlatformMap, b: &PlatformMap) -> (r: bool)
    ensures
        r == (a@ =~= b@),
{
    if a.tokens.len() != b.tokens.len() {
        return false;
    }
    let mut i: usize = 0;
    while i < a.tokens.len()
        invariant
            a.tokens@.len() == b.tokens@.len(),
            i <= a.tokens@.len(),
            forall|j: int| 0 <= j < i ==> a@[j] == b@[j],
        decreases a.tokens@.len() - i,
    {
        if !str_eq(a.tokens[i].as_str(), b.tokens[i].as_str()) {
            proof {
                assert(a@[i as int] != b@[i as int]);
            }
            return false;
        }
        i += 1;
    }
    true
}

/// Equality of two name-to-specifier maps, entry by entry.
pub fn eq_spec_map(
    a: &KeyMap<VersionSpecifier>,
    b: &KeyMap<VersionSpecifier>,
) -> (r: bool)
    ensures
        r == (a@ =~= b@),
{
    if a.entries.len() != b.entries.len() {
        return false;
    }
    let mut i: usize = 0;
    while i < a.entries.len()
        invariant
            a.entries@.len() == b.entries@.len(),
            i <= a.entries@.len(),
            forall|j: int| 0 <= j < i ==> a@[j] == b@[j],
        decreases a.entries@.len() - i,
    {
        let ea = &a.entries[i];
        let eb = &b.entries[i];
        if !str_eq(ea.0.as_str(), eb.0.as_str()) {
            proof {
                assert(a@[i as int].0 != b@[i as int].0);
            }
            return false;
        }
        if !ea.1.eq_spec(&eb.1) {
            proof {
                assert(a@[i as int].1 != b@[i as int].1);
            }
            return false;
        }
        proof {
            assert(a@[i as int] =~= b@[i as int]);
        }
        i += 1;
    }
    true
}

/// Equality of two bin declarations.
pub fn eq_bin(a: &Option<Bin>, b: &Option<Bin>) -> (r: bool)
    ensures
        r == (match (a, b) {
            (Some(x), Some(y)) => x@ =~~= y@,
            (None, None) => true,
            _ => false,
        }),
{
    match (a, b) {
        (Some(Bin::Single(x)), Some(Bin::Single(y))) => str_eq(x.as_str(), y.as_str()),
        (Some(Bin::Multi(x)), Some(Bin::Multi(y))) => crate::plan::eq_string_map(x, y),
        (None, None) => true,
        _ => false,
    }
}

/// Equality of two info records.
pub fn eq_info(a: &PackageInfo, b: &PackageInfo) -> (r: bool)
    ensures
        r == (a@ =~~= b@),
{
    let mut r = str_eq(a.name.as_str(), b.name.as_str());
    r = r && str_eq(a.dist.tarball.as_str(), b.dist.tarball.as_str());
    r = r && eq_spec_map(&a.dependencies, &b.dependencies);
    r = r && eq_spec_map(&a.optional_dependencies, &b.optional_dependencies);
    r = r && eq_platform_map(&a.os, &b.os);
    r = r && eq_platform_map(&a.cpu, &b.cpu);
    r = r && eq_bin(&a.bin, &b.bin);
    r = r && crate::plan::eq_string_map(&a.scripts, &b.scripts);
    r
}

/// Equality of two pinned packages.
pub fn eq_pinned(a: &VersionedPackageInfo, b: &VersionedPackageInfo) -> (r: bool)
    ensures
        r == (a@ =~~= b@),
{
    eq_info(&a.package, &b.package) && a.version.eq_version(&b.version)
}

/// The commands a package exposes, as the installer records them.
pub open spec fn spec_bins_of(info: InfoV) -> Seq<(Seq<char>, Seq<char>)> {
    match info.bin {
        Some(BinV::Multi(m)) => m,
        Some(BinV::Single(x)) => seq![(info.name, x)],
        None => Seq::empty(),
    }
}

/// The installable identity a pinned package reduces to.
pub open spec fn dep_of(p: PinnedV) -> DepV {
    DepV {
        name: p.package.name,
        version: p.version,
        dist: p.package.dist,
        bins: spec_bins_of(p.package),
        scripts: p.package.scripts,
    }
}

/// Reduces a pinned package to its installable identity.
pub fn dependency_of(p: &VersionedPackageInfo) -> (r: Dependency)
    ensures
        r@ =~~= dep_of(p@),
{
    let r = Dependency {
        name: p.package.name.clone(),
        version: p.version.clone(),
        dist: p.package.dist.duplicate(),
        bins: p.package.bins(),
        scripts: dup_string_map(&p.package.scripts),
    };
    r
}

/// Whether `p` occurs in `pool`.
pub open spec fn occurs_in(pool: Seq<PinnedV>, p: PinnedV) -> bool {
    exists|i: int| 0 <= i < pool.len() && pool[i] == p
}

/// The pinned packages a graph holds, in entry order.
pub open spec fn graph_values(g: Graph) -> Seq<PinnedV> {
    g.relations@.map_values(
        |e: (crate::specifier::PackageSpecifier, VersionedPackageInfo)| e.1@,
    )
}

/// Whether `p` is the pinned package of some graph entry.
pub open spec fn is_graph_value(g: Graph, p: PinnedV) -> bool {
    occurs_in(graph_values(g), p)
}

/// Whether `p` occurs on the ancestor chain.
pub open spec fn in_stack(sv: Seq<PinnedV>, p: PinnedV) -> bool {
    exists|i: int| 0 <= i < sv.len() && sv[i] == p
}

/// Whether `(name, version)` was hoisted away.
pub open spec fn excluded(ex: Seq<(Seq<char>, VersionV)>, name: Seq<char>, v: VersionV) -> bool {
    exists|i: int| 0 <= i < ex.len() && ex[i] == (name, v)
}

/// Reachable from the root requests in at most `n` pinned-child
/// steps: the pin of a root request, or the pin of a child request of
/// a package reachable in fewer steps.
pub open spec fn reach_n(
    g: Graph,
    roots: Seq<crate::specifier::ReqV>,
    p: PinnedV,
    n: nat,
) -> bool
    decreases n,
{
    if n == 0 {
        exists|ri: int| 0 <= ri < roots.len() && g.spec_get(#[trigger] roots[ri]) == Some(p)
    } else {
        reach_n(g, roots, p, (n - 1) as nat) || (exists|q: PinnedV, c: int|
            reach_n(g, roots, q, (n - 1) as nat) && 0 <= c < crate::package::spec_child_reqs(
                q.package,
            ).len() && g.spec_get(
                #[trigger] crate::package::spec_child_reqs(q.package)[c],
            ) == Some(p))
    }
}

/// Reachable from the root requests through pinned children.
pub open spec fn reachable(g: Graph, roots: Seq<crate::specifier::ReqV>, p: PinnedV) -> bool {
    exists|n: nat| reach_n(g, roots, p, n)
}

/// Whether some root request bears the name.
pub open spec fn root_named(roots: Seq<crate::specifier::ReqV>, name: Seq<char>) -> bool {
    exists|ri: int| 0 <= ri < roots.len() && (#[trigger] roots[ri]).name == name
}

proof fn lemma_get_is_value(g: Graph, k: crate::specifier::ReqV, p: PinnedV)
    requires
        g.spec_get(k) == Some(p),
    ensures
        is_graph_value(g, p),
{
    crate::resolve::lemma_req_index(g.req_keys(), k);
    let gi = crate::resolve::req_index(g.req_keys(), k);
    assert(graph_values(g)[gi] == p);
}

proof fn lemma_reach_n_is_value(
    g: Graph,
    roots: Seq<crate::specifier::ReqV>,
    p: PinnedV,
    n: nat,
)
    requires
        reach_n(g, roots, p, n),
    ensures
        is_graph_value(g, p),
    decreases n,
{
    if n == 0 {
        let ri = choose|ri: int|
            0 <= ri < roots.len() && g.spec_get(#[trigger] roots[ri]) == Some(p);
        lemma_get_is_value(g, roots[ri], p);
    } else if reach_n(g, roots, p, (n - 1) as nat) {
        lemma_reach_n_is_value(g, roots, p, (n - 1) as nat);
    } else {
        let (q, c) = choose|q: PinnedV, c: int|
            reach_n(g, roots, q, (n - 1) as nat) && 0 <= c < crate::package::spec_child_reqs(
                q.package,
            ).len() && g.spec_get(
                #[trigger] crate::package::spec_child_reqs(q.package)[c],
            ) == Some(p);
        lemma_get_is_value(g, crate::package::spec_child_reqs(q.package)[c], p);
    }
}

/// A reachable package is pinned somewhere in the graph, so on a graph
/// whose pins are all supported, every reachable package is supported.
pub proof fn lemma_reachable_is_value(
    g: Graph,
    roots: Seq<crate::specifier::ReqV>,
    p: PinnedV,
)
    requires
        reachable(g, roots, p),
    ensures
        is_graph_value(g, p),
{
    let n = choose|n: nat| reach_n(g, roots, p, n);
    lemma_reach_n_is_value(g, roots, p, n);
}

/// Whether some listed pin has the view `p`.
pub open spec fn in_pins(v: Seq<VersionedPackageInfo>, p: PinnedV) -> bool {
    exists|a: int| 0 <= a < v.len() && (#[trigger] v[a])@ == p
}

/// Every pinned package of the graph accepts the platform.
pub open spec fn all_values_supported(g: Graph, os: Seq<char>, cpu: Seq<char>) -> bool {
    forall|i: int|
        0 <= i < g.relations@.len() ==> crate::package::info_supported(
            (#[trigger] g.relations@[i]).1@.package,
            os,
            cpu,
        )
}

/// Every root request's pin carries the request's own name. The
/// resolver renames aliases at resolution, so a graph it built has
/// this whenever the registry metadata declares its own name.
pub open spec fn root_names_agree(g: Graph, roots: Seq<crate::specifier::ReqV>) -> bool {
    forall|ri: int|
        0 <= ri < roots.len() ==> match g.spec_get(#[trigger] roots[ri]) {
            Some(p) => p.package.name == roots[ri].name,
            None => true,
        }
}

/// A set that holds every root pin and is closed under pinned child
/// requests holds every reachable package.
proof fn lemma_reach_closed(
    g: Graph,
    roots: Seq<crate::specifier::ReqV>,
    fv: Seq<PinnedV>,
    p: PinnedV,
    n: nat,
)
    requires
        forall|ri: int|
            0 <= ri < roots.len() ==> match g.spec_get(#[trigger] roots[ri]) {
                Some(q) => occurs_in(fv, q),
                None => true,
            },
        forall|a: int, c: int|
            0 <= a < fv.len() && 0 <= c < crate::package::spec_child_reqs(fv[a].package).len()
                ==> match g.spec_get(
                #[trigger] crate::package::spec_child_reqs(fv[a].package)[c],
            ) {
                Some(q) => occurs_in(fv, q),
                None => true,
            },
        reach_n(g, roots, p, n),
    ensures
        occurs_in(fv, p),
    decreases n,
{
    if n == 0 {
        let ri = choose|ri: int|
            0 <= ri < roots.len() && g.spec_get(#[trigger] roots[ri]) == Some(p);
        assert(g.spec_get(roots[ri]) == Some(p));
    } else if reach_n(g, roots, p, (n - 1) as nat) {
        lemma_reach_closed(g, roots, fv, p, (n - 1) as nat);
    } else {
        let (q, c) = choose|q: PinnedV, c: int|
            reach_n(g, roots, q, (n - 1) as nat) && 0 <= c < crate::package::spec_child_reqs(
                q.package,
            ).len() && g.spec_get(
                #[trigger] crate::package::spec_child_reqs(q.package)[c],
            ) == Some(p);
        lemma_reach_closed(g, roots, fv, q, (n - 1) as nat);
        let a = choose|a: int| 0 <= a < fv.len() && fv[a] == q;
        assert(crate::package::spec_child_reqs(fv[a].package) == crate::package::spec_child_reqs(
            q.package,
        ));
        assert(g.spec_get(crate::package::spec_child_reqs(fv[a].package)[c]) == Some(p));
    }
}

/// Every node of the tree is the identity of a supported graph value,
/// and no nested node carries a hoisted `(name, version)`.
pub open spec fn tree_nodes_ok(
    g: Graph,
    ex: Seq<(Seq<char>, VersionV)>,
    os: Seq<char>,
    cpu: Seq<char>,
    t: TreeV,
) -> bool
    decreases t,
{
    &&& (exists|p: PinnedV|
        #[trigger] is_graph_value(g, p) && t.root() =~~= dep_of(p)
            && crate::package::platform_ok(p.package.os, os) && crate::package::platform_ok(
            p.package.cpu,
            cpu,
        ))
    &&& (forall|j: int|
        0 <= j < t.children().len() ==> (#[trigger] t.children()[j]).0
            == t.children()[j].1.root().name && !excluded(
            ex,
            t.children()[j].1.root().name,
            t.children()[j].1.root().version,
        ) && tree_nodes_ok(g, ex, os, cpu, t.children()[j].1))
}

/// Whether `(name, v)` is carried by some node strictly below the
/// root of `t`.
pub open spec fn tree_has_nested_pair(t: TreeV, name: Seq<char>, v: VersionV) -> bool
    decreases t,
{
    exists|j: int|
        0 <= j < t.children().len() && (((#[trigger] t.children()[j]).1.root().name == name
            && t.children()[j].1.root().version == v) || tree_has_nested_pair(
            t.children()[j].1,
            name,
            v,
        ))
}

/// A tree whose nodes avoid the excluded pairs at every depth never
/// nests an excluded pair.
proof fn lemma_nodes_ok_excludes(
    g: Graph,
    ex: Seq<(Seq<char>, VersionV)>,
    os: Seq<char>,
    cpu: Seq<char>,
    t: TreeV,
    name: Seq<char>,
    v: VersionV,
)
    requires
        tree_nodes_ok(g, ex, os, cpu, t),
        excluded(ex, name, v),
    ensures
        !tree_has_nested_pair(t, name, v),
    decreases t,
{
    assert forall|j: int|
        0 <= j < t.children().len() implies !(((#[trigger] t.children()[j]).1.root().name == name
        && t.children()[j].1.root().version == v) || tree_has_nested_pair(
        t.children()[j].1,
        name,
        v,
    )) by {
        lemma_nodes_ok_excludes(g, ex, os, cpu, t.children()[j].1, name, v);
        if t.children()[j].1.root().name == name && t.children()[j].1.root().version == v {
            assert(!excluded(ex, t.children()[j].1.root().name, t.children()[j].1.root().version));
        }
    }
}

/// A sequence of pairwise-distinct values, each occurring in `pool`,
/// is no longer than the pool.
pub proof fn lemma_distinct_bound(vals: Seq<PinnedV>, pool: Seq<PinnedV>)
    requires
        forall|a: int, b: int| 0 <= a < b < vals.len() ==> vals[a] != vals[b],
        forall|a: int| 0 <= a < vals.len() ==> occurs_in(pool, #[trigger] vals[a]),
    ensures
        vals.len() <= pool.len(),
    decreases vals.len(),
{
    if vals.len() > 0 {
        let last = vals.last();
        assert(occurs_in(pool, last));
        let k = choose|i: int| 0 <= i < pool.len() && pool[i] == last;
        let pool2 = pool.remove(k);
        let vals2 = vals.drop_last();
        assert forall|a: int|
            0 <= a < vals2.len() implies occurs_in(pool2, #[trigger] vals2[a]) by {
            assert(vals2[a] == vals[a]);
            assert(occurs_in(pool, vals[a]));
            let i = choose|i: int| 0 <= i < pool.len() && pool[i] == vals[a];
            assert(vals[a] != last);
            assert(i != k);
            if i < k {
                assert(pool2[i] == pool[i]);
                assert(0 <= i < pool2.len() && pool2[i] == vals2[a]);
            } else {
                assert(pool2[i - 1] == pool[i]);
                assert(0 <= i - 1 < pool2.len() && pool2[i - 1] == vals2[a]);
            }
        }
        assert forall|a: int, b: int|
            0 <= a < b < vals2.len() implies vals2[a] != vals2[b] by {
            assert(vals2[a] == vals[a]);
            assert(vals2[b] == vals[b]);
        }
        lemma_distinct_bound(vals2, pool2);
    }
}

/// Whether the package occurs on the ancestor chain.
pub fn stack_contains(stack: &Vec<VersionedPackageInfo>, p: &VersionedPackageInfo) -> (r: bool)
    ensures
        r == in_stack(stack@.map_values(|x: VersionedPackageInfo| x@), p@),
{
    let ghost sv = stack@.map_values(|x: VersionedPackageInfo| x@);
    let mut k: usize = 0;
    while k < stack.len()
        invariant
            sv == stack@.map_values(|x: VersionedPackageInfo| x@),
            k <= stack@.len(),
            forall|a: int| 0 <= a < k ==> sv[a] != p@,
        decreases stack@.len() - k,
    {
        if eq_pinned(&stack[k], p) {
            proof {
                assert(sv[k as int] == p@);
            }
            return true;
        }
        k += 1;
    }
    false
}

/// Whether `(name, version)` is among the hoisted exclusions.
pub fn is_excluded(exclude: &Vec<(String, Version)>, name: &String, version: &Version) -> (r:
    bool)
    ensures
        r == excluded(
            exclude@.map_values(|e: (String, Version)| (e.0@, e.1@)),
            name@,
            version@,
        ),
{
    let ghost exv = exclude@.map_values(|e: (String, Version)| (e.0@, e.1@));
    let mut x: usize = 0;
    while x < exclude.len()
        invariant
            exv == exclude@.map_values(|e: (String, Version)| (e.0@, e.1@)),
            x <= exclude@.len(),
            forall|a: int| 0 <= a < x ==> exv[a] != (name@, version@),
        decreases exclude@.len() - x,
    {
        if str_eq(exclude[x].0.as_str(), name.as_str()) && exclude[x].1.eq_version(version) {
            proof {
                assert(exv[x as int] == (name@, version@));
            }
            return true;
        }
        x += 1;
    }
    false
}

/// A chain of distinct graph values, one about to be extended with a
/// fresh graph value, stays within the graph's size.
proof fn lemma_stack_fits(g: Graph, sv: Seq<PinnedV>)
    requires
        forall|a: int, b: int| 0 <= a < b < sv.len() ==> sv[a] != sv[b],
        forall|a: int| 0 <= a < sv.len() ==> is_graph_value(g, #[trigger] sv[a]),
    ensures
        sv.len() <= g.relations@.len(),
{
    assert forall|a: int| 0 <= a < sv.len() implies occurs_in(graph_values(g), #[trigger] sv[a]) by {
        assert(is_graph_value(g, sv[a]));
    }
    lemma_distinct_bound(sv, graph_values(g));
    assert(graph_values(g).len() == g.relations@.len());
}

/// Builds the installation tree for one pinned package. A package
/// already on the ancestor chain is a cycle and yields no subtree; an
/// unsupported package yields no subtree when optional and a platform
/// failure otherwise; children hoisted away are pruned.
#[verifier::rlimit(100)]
pub fn build_tree(
    graph: &Graph,
    package: &VersionedPackageInfo,
    stack: &mut Vec<VersionedPackageInfo>,
    exclude: &Vec<(String, Version)>,
    optional: bool,
    os: &str,
    cpu: &str,
    immutable: bool,
) -> (r: Result<Option<DependencyTree>, ResolveError>)
    requires
        forall|a: int, b: int|
            0 <= a < b < old(stack)@.len() ==> old(stack)@[a]@ != old(stack)@[b]@,
        forall|a: int|
            0 <= a < old(stack)@.len() ==> is_graph_value(*graph, #[trigger] old(stack)@[a]@),
        is_graph_value(*graph, package@),
    ensures
        final(stack)@.len() == old(stack)@.len(),
        forall|a: int| 0 <= a < old(stack)@.len() ==> final(stack)@[a]@ == old(stack)@[a]@,
        ({
            let exv = exclude@.map_values(|e: (String, Version)| (e.0@, e.1@));
            let sv = old(stack)@.map_values(|x: VersionedPackageInfo| x@);
            let supported = crate::package::info_supported(package@.package, os@, cpu@);
            &&& (match r {
                Ok(Some(t)) => !in_stack(sv, package@) && supported && t@.root() =~~= dep_of(
                    package@,
                ) && tree_nodes_ok(*graph, exv, os@, cpu@, t@),
                Ok(None) => in_stack(sv, package@) || (!supported && optional),
                Err(e) => !in_stack(sv, package@) && (e@ matches ErrV::UnsupportedPlatform {
                    ..
                } || e@ matches ErrV::MissingFromGraph { .. }) && (crate::resolve::graph_closed(
                    *graph,
                ) ==> e@ matches ErrV::UnsupportedPlatform { .. }) && (all_values_supported(
                    *graph,
                    os@,
                    cpu@,
                ) ==> e@ matches ErrV::MissingFromGraph { .. }),
            })
            &&& (in_stack(sv, package@) ==> r matches Ok(None))
            &&& (!in_stack(sv, package@) && !supported && optional ==> r matches Ok(None))
            &&& (!in_stack(sv, package@) && !supported && !optional ==> (r matches Err(e) && e@
                == (ErrV::UnsupportedPlatform {
                name: package@.package.name,
                version: version_text(package@.version),
            })))
        }),
    decreases graph.relations@.len() - stack@.len(),
{
    let ghost sv = stack@.map_values(|x: VersionedPackageInfo| x@);
    let ghost exv = exclude@.map_values(|e: (String, Version)| (e.0@, e.1@));
    if stack_contains(stack, package) {
        return Ok(None);
    }
    let root = dependency_of(package);
    if !package.package.supported(os, cpu) {
        if optional {
            return Ok(None);
        } else {
            proof {
                if all_values_supported(*graph, os@, cpu@) {
                    let gi = choose|gi: int|
                        0 <= gi < graph_values(*graph).len() && graph_values(*graph)[gi]
                            == package@;
                    assert(graph.relations@[gi].1@ == package@);
                    assert(crate::package::info_supported(package@.package, os@, cpu@));
                    assert(false);
                }
            }
            return Err(
                ResolveError::UnsupportedPlatform {
                    name: package.package.name.clone(),
                    version: package.version.to_text(),
                },
            );
        }
    }
    let child_reqs = package.package.iter();
    let mut children: Vec<(String, DependencyTree)> = Vec::new();
    let mut ci: usize = 0;
    while ci < child_reqs.len()
        invariant
            sv == stack@.map_values(|x: VersionedPackageInfo| x@),
            sv == old(stack)@.map_values(|x: VersionedPackageInfo| x@),
            exv == exclude@.map_values(|e: (String, Version)| (e.0@, e.1@)),
            crate::package::info_supported(package@.package, os@, cpu@),
            ci <= child_reqs@.len(),
            child_reqs@.map_values(|p: crate::specifier::PackageSpecifier| p@)
                == crate::package::spec_child_reqs(package@.package),
            forall|a: int, b: int| 0 <= a < b < stack@.len() ==> stack@[a]@ != stack@[b]@,
            forall|a: int|
                0 <= a < stack@.len() ==> is_graph_value(*graph, #[trigger] stack@[a]@),
            is_graph_value(*graph, package@),
            !in_stack(sv, package@),
            forall|j: int|
                0 <= j < children@.len() ==> (#[trigger] children@[j]).0@
                    == children@[j].1@.root().name && !excluded(
                    exv,
                    children@[j].1@.root().name,
                    children@[j].1@.root().version,
                ) && tree_nodes_ok(*graph, exv, os@, cpu@, children@[j].1@),
        decreases child_reqs@.len() - ci,
    {
        let req = &child_reqs[ci];
        let package2 = match graph.resolve_req(req, immutable) {
            Ok(p) => p,
            Err(e) => {
            proof {
                if crate::resolve::graph_closed(*graph) {
                    let gi = choose|gi: int|
                        0 <= gi < graph_values(*graph).len() && graph_values(*graph)[gi]
                            == package@;
                    assert(graph.relations@[gi].1@ == package@);
                    assert(req@ == crate::package::spec_child_reqs(
                        graph.relations@[gi].1@.package,
                    )[ci as int]);
                    assert(graph.spec_contains(req@));
                    assert(false);
                }
                assert(stack@.map_values(|x: VersionedPackageInfo| x@).len() == stack@.len());
                assert(old(stack)@.map_values(|x: VersionedPackageInfo| x@).len() == old(
                    stack,
                )@.len());
                assert(stack@.len() == old(stack)@.len());
                assert forall|a: int|
                    0 <= a < old(stack)@.len() implies stack@[a]@ == old(stack)@[a]@ by {
                    assert(stack@.map_values(|x: VersionedPackageInfo| x@)[a] == sv[a]);
                    assert(old(stack)@.map_values(|x: VersionedPackageInfo| x@)[a] == sv[a]);
                }
            }
                return Err(e);
            },
        };
        proof {
            crate::resolve::lemma_req_index(graph.req_keys(), req@);
            let gi = crate::resolve::req_index(graph.req_keys(), req@);
            assert(graph.relations@[gi].1@ == package2@);
            assert(graph_values(*graph)[gi] == package2@);
            assert(is_graph_value(*graph, package2@));
        }
        let is_ex = is_excluded(exclude, &package2.package.name, &package2.version);
        if !is_ex {
            let ghost presv = stack@;
            stack.push(package.duplicate());
            proof {
                assert forall|a: int, b: int|
                    0 <= a < b < stack@.len() implies stack@[a]@ != stack@[b]@ by {
                    if b < presv.len() {
                    } else {
                        assert(stack@[b]@ == package@);
                        assert(sv[a] == stack@[a]@);
                    }
                }
                assert forall|a: int|
                    0 <= a < stack@.len() implies is_graph_value(
                    *graph,
                    #[trigger] stack@[a]@,
                ) by {}
                let stv = stack@.map_values(|y: VersionedPackageInfo| y@);
                assert forall|a: int, b: int| 0 <= a < b < stv.len() implies stv[a] != stv[b] by {
                    assert(stv[a] == stack@[a]@);
                    assert(stv[b] == stack@[b]@);
                }
                assert forall|a: int|
                    0 <= a < stv.len() implies is_graph_value(*graph, #[trigger] stv[a]) by {
                    assert(stv[a] == stack@[a]@);
                }
                lemma_stack_fits(*graph, stv);
                assert(stack@.len() <= graph.relations@.len());
                assert(presv.map_values(|x: VersionedPackageInfo| x@).len() == presv.len());
                assert(old(stack)@.map_values(|x: VersionedPackageInfo| x@).len() == old(
                    stack,
                )@.len());
                assert(presv.len() == old(stack)@.len());
                assert(stack@.len() == old(stack)@.len() + 1);
            }
            let sub = build_tree(graph, &package2, stack, exclude, req.optional, os, cpu, immutable);
            let popped = stack.pop();
            proof {
                assert(stack@.len() == presv.len());
                assert(forall|a: int| 0 <= a < presv.len() ==> stack@[a]@ == presv[a]@);
                assert(stack@.map_values(|y: VersionedPackageInfo| y@) =~= sv);
            }
            match sub {
                Err(e) => {
            proof {
                assert(stack@.map_values(|x: VersionedPackageInfo| x@).len() == stack@.len());
                assert(old(stack)@.map_values(|x: VersionedPackageInfo| x@).len() == old(
                    stack,
                )@.len());
                assert(stack@.len() == old(stack)@.len());
                assert forall|a: int|
                    0 <= a < old(stack)@.len() implies stack@[a]@ == old(stack)@[a]@ by {
                    assert(stack@.map_values(|x: VersionedPackageInfo| x@)[a] == sv[a]);
                    assert(old(stack)@.map_values(|x: VersionedPackageInfo| x@)[a] == sv[a]);
                }
            }
                    return Err(e);
                },
                Ok(Some(t)) => {
                    let name = t.root.name.clone();
                    proof {
                        assert(t@.root() == t.root@);
                    }
                    children.push((name, t));
                },
                Ok(None) => {},
            }
        }
        ci += 1;
    }
    let result = DependencyTree { root, children };
    proof {
        assert(result@.root() =~~= dep_of(package@));
        assert(result@.children() =~= children@.map_values(
            |e: (String, DependencyTree)| (e.0@, e.1@),
        ));
        assert(is_graph_value(*graph, package@) && result@.root() =~~= dep_of(package@)
            && crate::package::platform_ok(package@.package.os, os@)
            && crate::package::platform_ok(package@.package.cpu, cpu@));
        assert forall|j: int|
            0 <= j < result@.children().len() implies (#[trigger] result@.children()[j]).0
            == result@.children()[j].1.root().name && !excluded(
            exv,
            result@.children()[j].1.root().name,
            result@.children()[j].1.root().version,
        ) && tree_nodes_ok(*graph, exv, os@, cpu@, result@.children()[j].1) by {
            assert(result@.children()[j] == (children@[j].0@, children@[j].1@));
        }
        assert(tree_nodes_ok(*graph, exv, os@, cpu@, result@));
        assert(stack@.map_values(|x: VersionedPackageInfo| x@).len() == stack@.len());
        assert(old(stack)@.map_values(|x: VersionedPackageInfo| x@).len() == old(stack)@.len());
        assert(stack@.len() == old(stack)@.len());
        assert forall|a: int|
            0 <= a < old(stack)@.len() implies stack@[a]@ == old(stack)@[a]@ by {
            assert(stack@.map_values(|x: VersionedPackageInfo| x@)[a] == sv[a]);
            assert(old(stack)@.map_values(|x: VersionedPackageInfo| x@)[a] == sv[a]);
        }
    }
    Ok(Some(result))
}

/// The store key of a pinned package.
pub fn pinned_id(p: &VersionedPackageInfo) -> (r: String)
    ensures
        r@ == crate::plan::id_text(p@.package.name, p@.version),
{
    let d = dependency_of(p);
    d.id()
}

/// The hoisting choice is correct when every root name keeps its root
/// pick and every other reachable name gets its greatest reachable
/// version.
pub open spec fn hoist_ok(
    flat: Seq<PinnedV>,
    roots: KeyMap<VersionedPackageInfo>,
    r: KeyMap<VersionedPackageInfo>,
) -> bool {
    &&& (forall|k: Seq<char>|
        #![trigger r.spec_get(k)]
        roots.spec_contains(k) ==> match (r.spec_get(k), roots.spec_get(k)) {
            (Some(a), Some(b)) => a@ == b@,
            _ => false,
        })
    &&& (forall|k: Seq<char>|
        #![trigger r.spec_get(k)]
        !roots.spec_contains(k) ==> match r.spec_get(k) {
            Some(p) => p@.package.name == k && (exists|i: int|
                0 <= i < flat.len() && flat[i] == p@) && (forall|i: int|
                0 <= i < flat.len() && (#[trigger] flat[i]).package.name == k ==> !version_lt(
                    p@.version,
                    flat[i].version,
                )),
            None => forall|i: int|
                0 <= i < flat.len() ==> (#[trigger] flat[i]).package.name != k,
        })
    &&& (forall|i: int|
        0 <= i < flat.len() ==> r.spec_contains((#[trigger] flat[i]).package.name))
}

/// Chooses the version to hoist for every reachable name: a name that
/// is an explicit root keeps the root's pick; any other name gets the
/// greatest version among its reachable occurrences.
#[verifier::rlimit(100)]
pub fn hoist_choices(
    flat: &Vec<VersionedPackageInfo>,
    roots: &KeyMap<VersionedPackageInfo>,
) -> (r: KeyMap<VersionedPackageInfo>)
    requires
        roots.wf(),
    ensures
        r.wf(),
        hoist_ok(flat@.map_values(|x: VersionedPackageInfo| x@), *roots, r),
    {
    let ghost fv = flat@.map_values(|x: VersionedPackageInfo| x@);
    let mut r: KeyMap<VersionedPackageInfo> = KeyMap::new();
    let mut i: usize = 0;
    while i < flat.len()
        invariant
            fv == flat@.map_values(|x: VersionedPackageInfo| x@),
            i <= flat@.len(),
            fv.len() == flat@.len(),
            r.wf(),
            forall|k: Seq<char>|
                #![trigger r.spec_get(k)]
                match r.spec_get(k) {
                    Some(p) => p@.package.name == k && (exists|a: int|
                        0 <= a < i && fv[a] == p@) && (forall|a: int|
                        0 <= a < i && (#[trigger] fv[a]).package.name == k ==> !version_lt(
                            p@.version,
                            fv[a].version,
                        )),
                    None => forall|a: int|
                        0 <= a < i ==> (#[trigger] fv[a]).package.name != k,
                },
        decreases flat@.len() - i,
    {
        let cand = &flat[i];
        let ghost cv = cand@;
        proof {
            assert(fv[i as int] == cand@);
        }
        let name = cand.package.name.clone();
        let replace = match r.get(name.as_str()) {
            Some(prev) => prev.version.lt_version(&cand.version),
            None => true,
        };
        if replace {
            let ghost prev_get = r.spec_get(name@);
            r.insert(name, cand.duplicate());
            proof {
                lemma_version_lt_irrefl(cv.version);
                assert forall|k: Seq<char>|
                    #![trigger r.spec_get(k)]
                    match r.spec_get(k) {
                        Some(p) => p@.package.name == k && (exists|a: int|
                            0 <= a < i + 1 && fv[a] == p@) && (forall|a: int|
                            0 <= a < i + 1 && (#[trigger] fv[a]).package.name == k
                                ==> !version_lt(p@.version, fv[a].version)),
                        None => forall|a: int|
                            0 <= a < i + 1 ==> (#[trigger] fv[a]).package.name != k,
                    } by {
                    if k == cv.package.name {
                        assert(r.spec_get(k) matches Some(p) && p@ == cv);
                        assert(fv[i as int] == cv);
                        assert forall|a: int|
                            0 <= a < i + 1 && (#[trigger] fv[a]).package.name == k
                            implies !version_lt(cv.version, fv[a].version) by {
                            if a < i {
                                match prev_get {
                                    Some(prev) => {
                                        if version_lt(cv.version, fv[a].version) {
                                            if version_lt(prev@.version, cv.version) {
                                                lemma_version_lt_trans(
                                                    prev@.version,
                                                    cv.version,
                                                    fv[a].version,
                                                );
                                            }
                                        }
                                    },
                                    None => {},
                                }
                            }
                        }
                    }
                }
            }
        } else {
            proof {
                assert(r.spec_get(cv.package.name) matches Some(p)
                    && !version_lt(p@.version, cv.version));
            }
        }
        i += 1;
    }
    let ghost r1 = r;
    let n = roots.entries.len();
    let mut t: usize = 0;
    while t < n
        invariant
            n == roots.entries@.len(),
            roots.wf(),
            t <= n,
            r.wf(),
            forall|k: Seq<char>|
                #![trigger r.spec_get(k)]
                (exists|j: int| 0 <= j < t && roots.keys()[j] == k) ==> match (
                r.spec_get(k),
                roots.spec_get(k),
            ) {
                (Some(a), Some(b)) => a@ == b@,
                _ => false,
            },
            forall|k: Seq<char>|
                !(exists|j: int| 0 <= j < t && roots.keys()[j] == k) ==> #[trigger] r.spec_get(
                    k,
                ) == r1.spec_get(k),
        decreases n - t,
    {
        let key = roots.entries[t].0.clone();
        let value = roots.entries[t].1.duplicate();
        let ghost kv = key@;
        r.insert(key, value);
        proof {
            roots.lemma_get_at_index(t as int);
            assert(roots.spec_get(kv) == Some(roots.entries@[t as int].1));
            assert forall|k: Seq<char>|
                #![trigger r.spec_get(k)]
                (exists|j: int| 0 <= j < t + 1 && roots.keys()[j] == k) implies match (
                r.spec_get(k),
                roots.spec_get(k),
            ) {
                (Some(a), Some(b)) => a@ == b@,
                _ => false,
            } by {
                if k == kv {
                } else {
                    assert(exists|j: int| 0 <= j < t && roots.keys()[j] == k);
                }
            }
        }
        t += 1;
    }
    proof {
        assert forall|k: Seq<char>|
            roots.spec_contains(k) implies (exists|j: int|
            0 <= j < n && roots.keys()[j] == k) by {
            crate::kmap::lemma_key_index(roots.keys(), k);
        }
        assert forall|k: Seq<char>|
            !roots.spec_contains(k) implies !(exists|j: int|
            0 <= j < n && roots.keys()[j] == k) by {
            if exists|j: int| 0 <= j < n && roots.keys()[j] == k {
                let j = choose|j: int| 0 <= j < n && roots.keys()[j] == k;
                crate::kmap::lemma_key_index(roots.keys(), k);
            }
        }
        assert forall|i2: int|
            0 <= i2 < fv.len() implies r.spec_contains((#[trigger] fv[i2]).package.name) by {
            let k = fv[i2].package.name;
            if !roots.spec_contains(k) {
                assert(r.spec_get(k) == r1.spec_get(k));
                assert(r1.spec_get(k) matches Some(_));
            } else {
                crate::kmap::lemma_key_index(roots.keys(), k);
            }
        }
    }
    r
}

/// Every node of the tree is the identity of a supported graph value.
pub open spec fn tree_ok(g: Graph, os: Seq<char>, cpu: Seq<char>, t: TreeV) -> bool
    decreases t,
{
    &&& (exists|p: PinnedV|
        #[trigger] is_graph_value(g, p) && t.root() =~~= dep_of(p)
            && crate::package::platform_ok(p.package.os, os) && crate::package::platform_ok(
            p.package.cpu,
            cpu,
        ))
    &&& (forall|j: int|
        0 <= j < t.children().len() ==> (#[trigger] t.children()[j]).0
            == t.children()[j].1.root().name && tree_ok(g, os, cpu, t.children()[j].1))
}

proof fn lemma_nodes_ok_weaken(
    g: Graph,
    ex: Seq<(Seq<char>, VersionV)>,
    os: Seq<char>,
    cpu: Seq<char>,
    t: TreeV,
)
    requires
        tree_nodes_ok(g, ex, os, cpu, t),
    ensures
        tree_ok(g, os, cpu, t),
    decreases t,
{
    assert forall|j: int|
        0 <= j < t.children().len() implies (#[trigger] t.children()[j]).0
        == t.children()[j].1.root().name && tree_ok(g, os, cpu, t.children()[j].1) by {
        lemma_nodes_ok_weaken(g, ex, os, cpu, t.children()[j].1);
    }
}

/// Walks the graph from the seeded frontier until every reachable
/// package is collected, recording each request's optionality on the
/// way. The result holds every root pin, is closed under pinned child
/// requests, and repeats no package.
#[verifier::rlimit(100)]
fn collect_reachable(
    graph: &Graph,
    edge0: Vec<VersionedPackageInfo>,
    is_opt: &mut KeyMap<bool>,
    immutable: bool,
    Ghost(rootsv): Ghost<Seq<crate::specifier::ReqV>>,
) -> (r: Result<Vec<VersionedPackageInfo>, ResolveError>)
    requires
        old(is_opt).wf(),
        forall|a: int|
            0 <= a < edge0@.len() ==> is_graph_value(*graph, (#[trigger] edge0@[a])@),
        forall|a: int|
            0 <= a < edge0@.len() ==> reachable(*graph, rootsv, (#[trigger] edge0@[a])@),
        forall|ri: int|
            0 <= ri < rootsv.len() ==> match graph.spec_get(#[trigger] rootsv[ri]) {
                Some(p) => in_pins(edge0@, p),
                None => true,
            },
    ensures
        final(is_opt).wf(),
        match r {
            Ok(flat) => {
                &&& flat@.len() <= graph.relations@.len()
                &&& (forall|a: int|
                    0 <= a < flat@.len() ==> is_graph_value(*graph, (#[trigger] flat@[a])@))
                &&& (forall|a: int|
                    0 <= a < flat@.len() ==> reachable(*graph, rootsv, (#[trigger] flat@[a])@))
                &&& (forall|a: int, b: int| 0 <= a < b < flat@.len() ==> flat@[a]@ != flat@[b]@)
                &&& (forall|ri: int|
                    0 <= ri < rootsv.len() ==> match graph.spec_get(#[trigger] rootsv[ri]) {
                        Some(p) => in_pins(flat@, p),
                        None => true,
                    })
                &&& (forall|a: int, c: int|
                    0 <= a < flat@.len() && 0 <= c < crate::package::spec_child_reqs(
                        flat@[a]@.package,
                    ).len() ==> match graph.spec_get(
                        #[trigger] crate::package::spec_child_reqs(flat@[a]@.package)[c],
                    ) {
                        Some(p) => in_pins(flat@, p),
                        None => true,
                    })
            },
            Err(e) => e@ matches ErrV::MissingFromGraph { .. } && !crate::resolve::graph_closed(
                *graph,
            ),
        },
{
    let glen = graph.relations.len();
    let mut edge = edge0;
    let mut flat: Vec<VersionedPackageInfo> = Vec::new();
    while edge.len() > 0
        invariant
            is_opt.wf(),
            glen == graph.relations@.len(),
            forall|a: int|
                0 <= a < edge@.len() ==> is_graph_value(*graph, (#[trigger] edge@[a])@),
            forall|a: int|
                0 <= a < edge@.len() ==> reachable(*graph, rootsv, (#[trigger] edge@[a])@),
            forall|a: int|
                0 <= a < flat@.len() ==> is_graph_value(*graph, (#[trigger] flat@[a])@),
            forall|a: int|
                0 <= a < flat@.len() ==> reachable(*graph, rootsv, (#[trigger] flat@[a])@),
            forall|a: int, b: int| 0 <= a < b < flat@.len() ==> flat@[a]@ != flat@[b]@,
            flat@.len() <= glen,
            forall|ri: int|
                0 <= ri < rootsv.len() ==> match graph.spec_get(#[trigger] rootsv[ri]) {
                    Some(p) => in_pins(flat@, p) || in_pins(edge@, p),
                    None => true,
                },
            forall|a: int, c: int|
                0 <= a < flat@.len() && 0 <= c < crate::package::spec_child_reqs(
                    flat@[a]@.package,
                ).len() ==> match graph.spec_get(
                    #[trigger] crate::package::spec_child_reqs(flat@[a]@.package)[c],
                ) {
                    Some(p) => in_pins(flat@, p) || in_pins(edge@, p),
                    None => true,
                },
        decreases glen - flat@.len(), edge@.len(),
    {
        let ghost pre_edge = edge@;
        let ghost pre_flat = flat@;
        let next = match edge.pop() {
            Some(x) => x,
            None => {
                proof {
                    assert(false);
                }
                vstd::pervasive::unreached()
            },
        };
        let mut seen = false;
        let mut f: usize = 0;
        while f < flat.len()
            invariant
                f <= flat@.len(),
                seen == (exists|b: int| 0 <= b < f && flat@[b]@ == next@),
            decreases flat@.len() - f,
        {
            if eq_pinned(&flat[f], &next) {
                seen = true;
            }
            f += 1;
        }
        if seen {
            proof {
                assert forall|p: PinnedV| in_pins(pre_edge, p) implies in_pins(flat@, p)
                    || in_pins(edge@, p) by {
                    let a = choose|a: int| 0 <= a < pre_edge.len() && pre_edge[a]@ == p;
                    if a == pre_edge.len() - 1 {
                        let b = choose|b: int| 0 <= b < flat@.len() && flat@[b]@ == next@;
                        assert(flat@[b]@ == p);
                    } else {
                        assert(edge@[a]@ == p);
                    }
                }
            }
        } else {
            let children = next.package.iter();
            let ghost childv = children@.map_values(
                |q: crate::specifier::PackageSpecifier| q@,
            );
            let ghost sn = edge@;
            proof {
                assert(childv == crate::package::spec_child_reqs(next@.package));
            }
            let mut c: usize = 0;
            while c < children.len()
                invariant
                    is_opt.wf(),
                    c <= children@.len(),
                    childv == children@.map_values(|q: crate::specifier::PackageSpecifier| q@),
                    childv == crate::package::spec_child_reqs(next@.package),
                    is_graph_value(*graph, next@),
                    reachable(*graph, rootsv, next@),
                    forall|a: int|
                        0 <= a < edge@.len() ==> is_graph_value(*graph, (#[trigger] edge@[a])@),
                    forall|a: int|
                        0 <= a < edge@.len() ==> reachable(
                            *graph,
                            rootsv,
                            (#[trigger] edge@[a])@,
                        ),
                    forall|p: PinnedV|
                        #![trigger in_pins(sn, p)]
                        in_pins(sn, p) ==> in_pins(edge@, p),
                    forall|c2: int|
                        0 <= c2 < c ==> match graph.spec_get(#[trigger] childv[c2]) {
                            Some(p) => in_pins(edge@, p),
                            None => true,
                        },
                decreases children@.len() - c,
            {
                let creq = &children[c];
                let pkg = match graph.resolve_req(creq, immutable) {
                    Ok(p) => p,
                    Err(e2) => {
                        proof {
                            if crate::resolve::graph_closed(*graph) {
                                let gi = choose|gi: int|
                                    0 <= gi < graph_values(*graph).len() && graph_values(
                                        *graph,
                                    )[gi] == next@;
                                assert(graph.relations@[gi].1@ == next@);
                                assert(creq@ == crate::package::spec_child_reqs(
                                    graph.relations@[gi].1@.package,
                                )[c as int]);
                                assert(graph.spec_contains(creq@));
                                assert(false);
                            }
                        }
                        return Err(e2);
                    },
                };
                proof {
                    crate::resolve::lemma_req_index(graph.req_keys(), creq@);
                    let gi = crate::resolve::req_index(graph.req_keys(), creq@);
                    assert(graph.relations@[gi].1@ == pkg@);
                    assert(graph_values(*graph)[gi] == pkg@);
                    assert(is_graph_value(*graph, pkg@));
                    let n = choose|n: nat| reach_n(*graph, rootsv, next@, n);
                    assert(graph.spec_get(
                        crate::package::spec_child_reqs(next@.package)[c as int],
                    ) == Some(pkg@));
                    assert(reach_n(*graph, rootsv, pkg@, n + 1));
                    assert(reachable(*graph, rootsv, pkg@));
                }
                let key = pinned_id(&pkg);
                is_opt.insert(key, creq.optional);
                let ghost edge_before = edge@;
                edge.push(pkg);
                proof {
                    assert forall|p: PinnedV| in_pins(sn, p) implies in_pins(edge@, p) by {
                        let a = choose|a: int| 0 <= a < sn.len() && sn[a]@ == p;
                        assert(in_pins(edge_before, p));
                        let a2 = choose|a2: int|
                            0 <= a2 < edge_before.len() && edge_before[a2]@ == p;
                        assert(edge@[a2]@ == p);
                    }
                    assert forall|c2: int|
                        0 <= c2 < c + 1 implies match graph.spec_get(#[trigger] childv[c2]) {
                        Some(p) => in_pins(edge@, p),
                        None => true,
                    } by {
                        if c2 < c {
                            match graph.spec_get(childv[c2]) {
                                Some(p) => {
                                    let a2 = choose|a2: int|
                                        0 <= a2 < edge_before.len() && edge_before[a2]@ == p;
                                    assert(edge@[a2]@ == p);
                                },
                                None => {},
                            }
                        } else {
                            assert(edge@[edge@.len() - 1]@ == pkg@);
                        }
                    }
                }
                c += 1;
            }
            let ghost edge_final = edge@;
            flat.push(next);
            proof {
                assert forall|a: int, b: int|
                    0 <= a < b < flat@.len() implies flat@[a]@ != flat@[b]@ by {
                    if b == pre_flat.len() {
                        assert(!(exists|x: int|
                            0 <= x < pre_flat.len() && pre_flat[x]@ == flat@[b]@));
                    }
                }
                let fvv = flat@.map_values(|y: VersionedPackageInfo| y@);
                assert forall|a: int, b: int| 0 <= a < b < fvv.len() implies fvv[a] != fvv[b] by {
                    assert(fvv[a] == flat@[a]@);
                    assert(fvv[b] == flat@[b]@);
                }
                assert forall|a: int|
                    0 <= a < fvv.len() implies is_graph_value(*graph, #[trigger] fvv[a]) by {
                    assert(fvv[a] == flat@[a]@);
                }
                lemma_stack_fits(*graph, fvv);
                assert(fvv.len() == flat@.len());
                // roots still covered: a pin that sat in the popped
                // slot is the new flat element; the rest kept a slot
                assert forall|p: PinnedV|
                    in_pins(pre_flat, p) || in_pins(pre_edge, p) implies in_pins(flat@, p)
                    || in_pins(edge@, p) by {
                    if in_pins(pre_flat, p) {
                        let a = choose|a: int| 0 <= a < pre_flat.len() && pre_flat[a]@ == p;
                        assert(flat@[a]@ == p);
                    } else {
                        let a = choose|a: int| 0 <= a < pre_edge.len() && pre_edge[a]@ == p;
                        if a == pre_edge.len() - 1 {
                            assert(flat@[flat@.len() - 1]@ == p);
                        } else {
                            assert(sn.len() == pre_edge.len() - 1);
                            assert(sn[a] == pre_edge[a]);
                            assert(in_pins(sn, p));
                        }
                    }
                }
                // the new element's children were all queued
                assert forall|a: int, c2: int|
                    0 <= a < flat@.len() && 0 <= c2 < crate::package::spec_child_reqs(
                        flat@[a]@.package,
                    ).len() implies match graph.spec_get(
                    #[trigger] crate::package::spec_child_reqs(flat@[a]@.package)[c2],
                ) {
                    Some(p) => in_pins(flat@, p) || in_pins(edge@, p),
                    None => true,
                } by {
                    if a < pre_flat.len() {
                        assert(flat@[a]@ == pre_flat[a]@);
                    } else {
                        assert(flat@[a]@ == next@);
                    }
                }
            }
        }
    }
    Ok(flat)
}

/// Builds the hoisted installation forest for the given root requests:
/// resolves the roots, walks the reachable packages, hoists one
/// version per name to the top level, and builds each top-level tree
/// with the hoisted pairs pruned from nested positions. On success,
/// every tree is made of supported graph values; a top-level tree
/// whose name no root bears carries the greatest reachable version of
/// that name; and — whenever each root's pin carries its request's
/// name — top-level names are pairwise distinct and a root-named tree
/// carries that root's pin. On a closed graph that pins every root,
/// only a platform rejection can fail the build, and none can when
/// every pinned package is supported.
#[verifier::rlimit(100)]
pub fn build_trees(
    graph: &Graph,
    root_reqs: &Vec<crate::specifier::PackageSpecifier>,
    os: &str,
    cpu: &str,
    immutable: bool,
) -> (r: Result<Vec<DependencyTree>, ResolveError>)
    ensures
        ({
            let rootsv = root_reqs@.map_values(|q: crate::specifier::PackageSpecifier| q@);
            &&& (match r {
                Ok(trees) => {
                    &&& (forall|j: int|
                        0 <= j < trees@.len() ==> tree_ok(*graph, os@, cpu@, (
                        #[trigger] trees@[j])@))
                    &&& (root_names_agree(*graph, rootsv) ==> (forall|j: int, p: PinnedV|
                        #![trigger trees@[j]@.root(), p.package.name]
                        0 <= j < trees@.len() && reachable(*graph, rootsv, p) && p.package.name
                            == trees@[j]@.root().name && !root_named(
                            rootsv,
                            trees@[j]@.root().name,
                        ) ==> !version_lt(trees@[j]@.root().version, p.version)))
                    &&& (root_names_agree(*graph, rootsv) ==> (forall|j1: int, j2: int|
                        0 <= j1 < j2 < trees@.len() ==> (#[trigger] trees@[j1])@.root().name != (
                        #[trigger] trees@[j2])@.root().name))
                    &&& (root_names_agree(*graph, rootsv) ==> (forall|j1: int, j2: int|
                        0 <= j1 < trees@.len() && 0 <= j2 < trees@.len()
                            ==> !tree_has_nested_pair(
                            (#[trigger] trees@[j2])@,
                            (#[trigger] trees@[j1])@.root().name,
                            trees@[j1]@.root().version,
                        )))
                    &&& (root_names_agree(*graph, rootsv) ==> (forall|p: PinnedV|
                        #![trigger p.package.name]
                        reachable(*graph, rootsv, p) ==> (exists|j: int|
                            0 <= j < trees@.len() && (#[trigger] trees@[j])@.root().name
                                == p.package.name) || (exists|q: PinnedV|
                            #![trigger q.package.name]
                            reachable(*graph, rootsv, q) && q.package.name == p.package.name
                                && !crate::package::info_supported(q.package, os@, cpu@))))
                    &&& (root_names_agree(*graph, rootsv) ==> (forall|j: int|
                        0 <= j < trees@.len() && root_named(
                            rootsv,
                            (#[trigger] trees@[j])@.root().name,
                        ) ==> (exists|ri: int|
                            0 <= ri < rootsv.len() && (#[trigger] rootsv[ri]).name
                                == trees@[j]@.root().name && (match graph.spec_get(rootsv[ri]) {
                                Some(p) => trees@[j]@.root() =~~= dep_of(p),
                                None => false,
                            }))))
                },
                Err(e) => (e@ matches ErrV::MissingFromGraph { .. } || e@ matches ErrV::UnsupportedPlatform {
                    ..
                }) && ((crate::resolve::graph_closed(*graph) && (forall|ri: int|
                    0 <= ri < rootsv.len() ==> graph.spec_contains(#[trigger] rootsv[ri])))
                    ==> e@ matches ErrV::UnsupportedPlatform { .. }),
            })
            &&& ((crate::resolve::graph_closed(*graph) && (forall|ri: int|
                0 <= ri < rootsv.len() ==> graph.spec_contains(#[trigger] rootsv[ri]))
                && all_values_supported(*graph, os@, cpu@)) ==> r is Ok)
        }),
{
    let ghost rootsv = root_reqs@.map_values(|q: crate::specifier::PackageSpecifier| q@);
    let mut roots: KeyMap<VersionedPackageInfo> = KeyMap::new();
    let mut is_opt: KeyMap<bool> = KeyMap::new();
    let mut edge: Vec<VersionedPackageInfo> = Vec::new();
    let mut i: usize = 0;
    while i < root_reqs.len()
        invariant
            rootsv == root_reqs@.map_values(|q: crate::specifier::PackageSpecifier| q@),
            rootsv.len() == root_reqs@.len(),
            i <= root_reqs@.len(),
            roots.wf(),
            is_opt.wf(),
            forall|k: Seq<char>|
                #![trigger roots.spec_get(k)]
                match roots.spec_get(k) {
                    Some(p) => exists|ri: int|
                        0 <= ri < rootsv.len() && (#[trigger] rootsv[ri]).name == k
                            && graph.spec_get(rootsv[ri]) == Some(p@),
                    None => true,
                },
            forall|ri: int|
                0 <= ri < i ==> roots.spec_contains((#[trigger] rootsv[ri]).name),
            forall|a: int|
                0 <= a < edge@.len() ==> is_graph_value(*graph, (#[trigger] edge@[a])@),
            forall|a: int|
                0 <= a < edge@.len() ==> reachable(*graph, rootsv, (#[trigger] edge@[a])@),
            forall|ri: int|
                0 <= ri < i ==> match graph.spec_get(#[trigger] rootsv[ri]) {
                    Some(p) => in_pins(edge@, p),
                    None => true,
                },
        decreases root_reqs@.len() - i,
    {
        let req = &root_reqs[i];
        proof {
            assert(rootsv[i as int] == req@);
        }
        let pkg = match graph.resolve_req(req, immutable) {
            Ok(p) => p,
            Err(e) => {
                proof {
                    if forall|ri: int|
                        0 <= ri < rootsv.len() ==> graph.spec_contains(#[trigger] rootsv[ri]) {
                        assert(graph.spec_contains(rootsv[i as int]));
                        assert(false);
                    }
                }
                return Err(e);
            },
        };
        proof {
            crate::resolve::lemma_req_index(graph.req_keys(), req@);
            let gi = crate::resolve::req_index(graph.req_keys(), req@);
            assert(graph_values(*graph)[gi] == pkg@);
            assert(is_graph_value(*graph, pkg@));
            assert(graph.spec_get(rootsv[i as int]) == Some(pkg@));
            assert(reach_n(*graph, rootsv, pkg@, 0));
        }
        let key = pinned_id(&pkg);
        is_opt.insert(key, req.optional);
        let ghost edge_before = edge@;
        edge.push(pkg.duplicate());
        proof {
            assert(edge@[edge@.len() - 1]@ == pkg@);
            assert forall|ri: int|
                0 <= ri < i + 1 implies match graph.spec_get(#[trigger] rootsv[ri]) {
                Some(p) => in_pins(edge@, p),
                None => true,
            } by {
                if ri < i {
                    match graph.spec_get(rootsv[ri]) {
                        Some(p) => {
                            let a = choose|a: int|
                                0 <= a < edge_before.len() && edge_before[a]@ == p;
                            assert(edge@[a]@ == p);
                        },
                        None => {},
                    }
                } else {
                    assert(in_pins(edge@, pkg@));
                }
            }
        }
        let ghost roots_before = roots;
        roots.insert(req.name.clone(), pkg);
        proof {
            assert forall|ri: int|
                0 <= ri < i + 1 implies roots.spec_contains((#[trigger] rootsv[ri]).name) by {
                if ri < i && rootsv[ri].name != req.name@ {
                    assert(roots.spec_get(rootsv[ri].name) == roots_before.spec_get(
                        rootsv[ri].name,
                    ));
                    assert(roots_before.spec_contains(rootsv[ri].name));
                }
            }
        }
        i += 1;
    }
    let flat = match collect_reachable(graph, edge, &mut is_opt, immutable, Ghost(rootsv)) {
        Ok(f) => f,
        Err(e) => {
            return Err(e);
        },
    };
    let hoisted = hoist_choices(&flat, &roots);
    let ghost fv = flat@.map_values(|x: VersionedPackageInfo| x@);
    proof {
        assert forall|ri: int|
            0 <= ri < rootsv.len() implies match graph.spec_get(#[trigger] rootsv[ri]) {
            Some(q) => occurs_in(fv, q),
            None => true,
        } by {
            match graph.spec_get(rootsv[ri]) {
                Some(q) => {
                    let a = choose|a: int| 0 <= a < flat@.len() && flat@[a]@ == q;
                    assert(fv[a] == q);
                },
                None => {},
            }
        }
        assert forall|a: int, c: int|
            0 <= a < fv.len() && 0 <= c < crate::package::spec_child_reqs(fv[a].package).len()
            implies match graph.spec_get(
            #[trigger] crate::package::spec_child_reqs(fv[a].package)[c],
        ) {
            Some(q) => occurs_in(fv, q),
            None => true,
        } by {
            assert(fv[a] == flat@[a]@);
            match graph.spec_get(crate::package::spec_child_reqs(flat@[a]@.package)[c]) {
                Some(q) => {
                    let a2 = choose|a2: int| 0 <= a2 < flat@.len() && flat@[a2]@ == q;
                    assert(fv[a2] == q);
                },
                None => {},
            }
        }
        assert forall|a: int|
            0 <= a < fv.len() implies reachable(*graph, rootsv, #[trigger] fv[a]) by {
            assert(fv[a] == flat@[a]@);
        }
        assert forall|h: int|
            0 <= h < hoisted.entries@.len() implies is_graph_value(
            *graph,
            (#[trigger] hoisted.entries@[h]).1@,
        ) && reachable(*graph, rootsv, hoisted.entries@[h].1@) by {
            hoisted.lemma_get_at_index(h);
            let k = hoisted.keys()[h];
            if roots.spec_contains(k) {
                assert(hoisted.spec_get(k) matches Some(a) && roots.spec_get(k) matches Some(b)
                    && a@ == b@);
                let rp = roots.spec_get(k)->Some_0;
                let ri = choose|ri: int|
                    0 <= ri < rootsv.len() && (#[trigger] rootsv[ri]).name == k
                        && graph.spec_get(rootsv[ri]) == Some(rp@);
                crate::resolve::lemma_req_index(graph.req_keys(), rootsv[ri]);
                let gi = crate::resolve::req_index(graph.req_keys(), rootsv[ri]);
                assert(graph_values(*graph)[gi] == rp@);
                assert(reach_n(*graph, rootsv, rp@, 0));
            } else {
                assert(hoisted.spec_get(k) matches Some(p) && (exists|x: int|
                    0 <= x < fv.len() && fv[x] == p@));
                let p = hoisted.entries@[h].1;
                let x = choose|x: int| 0 <= x < fv.len() && fv[x] == p@;
                assert(fv[x] == flat@[x]@);
                assert(reachable(*graph, rootsv, fv[x]));
            }
        }
    }
    let mut exclude: Vec<(String, Version)> = Vec::new();
    let mut x: usize = 0;
    while x < hoisted.entries.len()
        invariant
            x <= hoisted.entries@.len(),
            exclude@.len() == x,
            forall|y: int|
                0 <= y < x ==> ((#[trigger] exclude@[y]).0@, exclude@[y].1@) == (
                    hoisted.keys()[y],
                    hoisted.entries@[y].1@.version,
                ),
        decreases hoisted.entries@.len() - x,
    {
        exclude.push(
            (hoisted.entries[x].0.clone(), hoisted.entries[x].1.version.clone()),
        );
        x += 1;
    }
    let ghost exv = exclude@.map_values(|e2: (String, Version)| (e2.0@, e2.1@));
    proof {
        assert forall|y: int|
            0 <= y < exv.len() implies #[trigger] exv[y] == (
            hoisted.keys()[y],
            hoisted.entries@[y].1@.version,
        ) by {
            assert(exv[y] == (exclude@[y].0@, exclude@[y].1@));
        }
    }
    let mut out: Vec<DependencyTree> = Vec::new();
    let mut h: usize = 0;
    while h < hoisted.entries.len()
        invariant
            rootsv == root_reqs@.map_values(|q: crate::specifier::PackageSpecifier| q@),
            h <= hoisted.entries@.len(),
            is_opt.wf(),
            hoisted.wf(),
            fv == flat@.map_values(|y: VersionedPackageInfo| y@),
            hoist_ok(fv, roots, hoisted),
            forall|k: Seq<char>|
                #![trigger roots.spec_get(k)]
                match roots.spec_get(k) {
                    Some(p) => exists|ri: int|
                        0 <= ri < rootsv.len() && (#[trigger] rootsv[ri]).name == k
                            && graph.spec_get(rootsv[ri]) == Some(p@),
                    None => true,
                },
            forall|ri: int|
                0 <= ri < rootsv.len() ==> roots.spec_contains((#[trigger] rootsv[ri]).name),
            forall|ri: int|
                0 <= ri < rootsv.len() ==> match graph.spec_get(#[trigger] rootsv[ri]) {
                    Some(q) => occurs_in(fv, q),
                    None => true,
                },
            forall|a: int, c: int|
                0 <= a < fv.len() && 0 <= c < crate::package::spec_child_reqs(
                    fv[a].package,
                ).len() ==> match graph.spec_get(
                    #[trigger] crate::package::spec_child_reqs(fv[a].package)[c],
                ) {
                    Some(q) => occurs_in(fv, q),
                    None => true,
                },
            forall|a: int|
                0 <= a < hoisted.entries@.len() ==> is_graph_value(
                    *graph,
                    (#[trigger] hoisted.entries@[a]).1@,
                ),
            forall|a: int| 0 <= a < fv.len() ==> reachable(*graph, rootsv, #[trigger] fv[a]),
            forall|a: int|
                0 <= a < hoisted.entries@.len() ==> reachable(
                    *graph,
                    rootsv,
                    (#[trigger] hoisted.entries@[a]).1@,
                ),
            root_names_agree(*graph, rootsv) ==> (forall|hh: int|
                0 <= hh < h ==> (exists|j: int|
                    0 <= j < out@.len() && (#[trigger] out@[j])@.root().name
                        == hoisted.keys()[hh]) || !crate::package::info_supported(
                    (#[trigger] hoisted.entries@[hh]).1@.package,
                    os@,
                    cpu@,
                )),
            exv == exclude@.map_values(|e2: (String, Version)| (e2.0@, e2.1@)),
            exv.len() == hoisted.entries@.len(),
            forall|y: int|
                0 <= y < exv.len() ==> #[trigger] exv[y] == (
                    hoisted.keys()[y],
                    hoisted.entries@[y].1@.version,
                ),
            forall|j: int|
                0 <= j < out@.len() ==> tree_ok(*graph, os@, cpu@, (#[trigger] out@[j])@),
            forall|j: int|
                0 <= j < out@.len() ==> tree_nodes_ok(
                    *graph,
                    exv,
                    os@,
                    cpu@,
                    (#[trigger] out@[j])@,
                ),
            root_names_agree(*graph, rootsv) ==> (forall|j: int, p: PinnedV|
                #![trigger out@[j]@.root(), p.package.name]
                0 <= j < out@.len() && reachable(*graph, rootsv, p) && p.package.name
                    == out@[j]@.root().name && !root_named(rootsv, out@[j]@.root().name)
                    ==> !version_lt(out@[j]@.root().version, p.version)),
            root_names_agree(*graph, rootsv) ==> (forall|j: int|
                0 <= j < out@.len() ==> (exists|hh: int|
                    0 <= hh < h && (#[trigger] out@[j])@.root().name == hoisted.keys()[hh]
                        && out@[j]@.root().version == hoisted.entries@[hh].1@.version)),
            root_names_agree(*graph, rootsv) ==> (forall|j1: int, j2: int|
                0 <= j1 < out@.len() && 0 <= j2 < out@.len() ==> !tree_has_nested_pair(
                    (#[trigger] out@[j2])@,
                    (#[trigger] out@[j1])@.root().name,
                    out@[j1]@.root().version,
                )),
            root_names_agree(*graph, rootsv) ==> (forall|j1: int, j2: int|
                0 <= j1 < j2 < out@.len() ==> (#[trigger] out@[j1])@.root().name != (
                #[trigger] out@[j2])@.root().name),
            root_names_agree(*graph, rootsv) ==> (forall|j: int|
                0 <= j < out@.len() && root_named(rootsv, (#[trigger] out@[j])@.root().name)
                    ==> (exists|ri: int|
                    0 <= ri < rootsv.len() && (#[trigger] rootsv[ri]).name
                        == out@[j]@.root().name && (match graph.spec_get(rootsv[ri]) {
                        Some(p) => out@[j]@.root() =~~= dep_of(p),
                        None => false,
                    }))),
        decreases hoisted.entries@.len() - h,
    {
        let id = pinned_id(&hoisted.entries[h].1);
        let opt = match is_opt.get(id.as_str()) {
            Some(b) => *b,
            None => false,
        };
        let mut stack: Vec<VersionedPackageInfo> = Vec::new();
        proof {
            assert(stack@.map_values(|y: VersionedPackageInfo| y@) =~= Seq::<PinnedV>::empty());
        }
        match build_tree(graph, &hoisted.entries[h].1, &mut stack, &exclude, opt, os, cpu, immutable) {
            Ok(Some(t)) => {
                let ghost pre_out = out@;
                proof {
                    lemma_nodes_ok_weaken(
                        *graph,
                        exclude@.map_values(|e2: (String, Version)| (e2.0@, e2.1@)),
                        os@,
                        cpu@,
                        t@,
                    );
                }
                out.push(t);
                proof {
                    let value = hoisted.entries@[h as int].1;
                    let k = hoisted.keys()[h as int];
                    hoisted.lemma_get_at_index(h as int);
                    let jn = pre_out.len() as int;
                    assert(out@[jn]@.root() =~~= dep_of(value@));
                    assert(exv =~= exclude@.map_values(|e2: (String, Version)| (e2.0@, e2.1@)));
                    assert(tree_nodes_ok(*graph, exv, os@, cpu@, out@[jn]@));
                    assert(out@[jn]@.root().version == hoisted.entries@[h as int].1@.version);
                    if root_names_agree(*graph, rootsv) {
                        if roots.spec_contains(k) {
                            assert(hoist_ok(fv, roots, hoisted));
                            assert(match (hoisted.spec_get(k), roots.spec_get(k)) {
                                (Some(a), Some(b)) => a@ == b@,
                                _ => false,
                            });
                            let rp = roots.spec_get(k)->Some_0;
                            assert(value@ == rp@);
                            let ri = choose|ri: int|
                                0 <= ri < rootsv.len() && (#[trigger] rootsv[ri]).name == k
                                    && graph.spec_get(rootsv[ri]) == Some(rp@);
                            assert(value@.package.name == rootsv[ri].name);
                            assert(out@[jn]@.root().name == k);
                            assert(root_named(rootsv, k));
                        } else {
                            assert(match hoisted.spec_get(k) {
                                Some(p) => p@.package.name == k && (exists|q: int|
                                    0 <= q < fv.len() && fv[q] == p@) && (forall|q: int|
                                    0 <= q < fv.len() && (#[trigger] fv[q]).package.name == k
                                        ==> !version_lt(p@.version, fv[q].version)),
                                None => false,
                            });
                            assert(out@[jn]@.root().name == k);
                            assert(!root_named(rootsv, k)) by {
                                if root_named(rootsv, k) {
                                    let ri = choose|ri: int|
                                        0 <= ri < rootsv.len() && (#[trigger] rootsv[ri]).name
                                            == k;
                                    assert(roots.spec_contains(rootsv[ri].name));
                                }
                            }
                            assert forall|p2: PinnedV|
                                #![trigger p2.package.name]
                                reachable(*graph, rootsv, p2) && p2.package.name == k
                                implies !version_lt(out@[jn]@.root().version, p2.version) by {
                                let n = choose|n: nat| reach_n(*graph, rootsv, p2, n);
                                lemma_reach_closed(*graph, rootsv, fv, p2, n);
                                let q = choose|q: int| 0 <= q < fv.len() && fv[q] == p2;
                                assert(fv[q].package.name == k);
                                assert(!version_lt(value@.version, fv[q].version));
                            }
                        }
                        assert forall|j: int|
                            0 <= j < out@.len() implies (exists|hh: int|
                            0 <= hh < h + 1 && (#[trigger] out@[j])@.root().name
                                == hoisted.keys()[hh] && out@[j]@.root().version
                                == hoisted.entries@[hh].1@.version) by {
                            if j < jn {
                                assert(out@[j] == pre_out[j]);
                                let hh = choose|hh: int|
                                    0 <= hh < h && (#[trigger] pre_out[j])@.root().name
                                        == hoisted.keys()[hh] && pre_out[j]@.root().version
                                        == hoisted.entries@[hh].1@.version;
                                assert(out@[j]@.root().name == hoisted.keys()[hh]
                                    && out@[j]@.root().version
                                    == hoisted.entries@[hh].1@.version);
                            } else {
                                assert(out@[j]@.root().name == hoisted.keys()[h as int]
                                    && out@[j]@.root().version
                                    == hoisted.entries@[h as int].1@.version);
                            }
                        }
                        assert forall|j: int|
                            0 <= j < out@.len() implies excluded(
                            exv,
                            (#[trigger] out@[j])@.root().name,
                            out@[j]@.root().version,
                        ) by {
                            let hh = choose|hh: int|
                                0 <= hh < h + 1 && (#[trigger] out@[j])@.root().name
                                    == hoisted.keys()[hh] && out@[j]@.root().version
                                    == hoisted.entries@[hh].1@.version;
                            assert(exv[hh] == (out@[j]@.root().name, out@[j]@.root().version));
                        }
                        assert forall|j1: int, j2: int|
                            0 <= j1 < out@.len() && 0 <= j2 < out@.len()
                            implies !tree_has_nested_pair(
                            (#[trigger] out@[j2])@,
                            (#[trigger] out@[j1])@.root().name,
                            out@[j1]@.root().version,
                        ) by {
                            lemma_nodes_ok_excludes(
                                *graph,
                                exv,
                                os@,
                                cpu@,
                                out@[j2]@,
                                out@[j1]@.root().name,
                                out@[j1]@.root().version,
                            );
                        }
                        assert forall|j1: int, j2: int|
                            0 <= j1 < j2 < out@.len() implies (#[trigger] out@[j1])@.root().name
                            != (#[trigger] out@[j2])@.root().name by {
                            if j2 == jn {
                                assert(out@[j1] == pre_out[j1]);
                                let hh = choose|hh: int|
                                    0 <= hh < h && (#[trigger] pre_out[j1])@.root().name
                                        == hoisted.keys()[hh] && pre_out[j1]@.root().version
                                        == hoisted.entries@[hh].1@.version;
                                assert(out@[j1]@.root().name == hoisted.keys()[hh]);
                                assert(out@[j2]@.root().name == hoisted.keys()[h as int]);
                                assert(hoisted.keys()[hh] != hoisted.keys()[h as int]);
                            } else {
                                assert(out@[j1] == pre_out[j1]);
                                assert(out@[j2] == pre_out[j2]);
                            }
                        }
                        assert forall|j: int, p2: PinnedV|
                            #![trigger out@[j]@.root(), p2.package.name]
                            0 <= j < out@.len() && reachable(*graph, rootsv, p2)
                                && p2.package.name == out@[j]@.root().name
                                && !root_named(rootsv, out@[j]@.root().name)
                            implies !version_lt(out@[j]@.root().version, p2.version) by {
                            if j < jn {
                                assert(out@[j] == pre_out[j]);
                            }
                        }
                        assert forall|j: int|
                            0 <= j < out@.len() && root_named(
                                rootsv,
                                (#[trigger] out@[j])@.root().name,
                            ) implies (exists|ri: int|
                            0 <= ri < rootsv.len() && (#[trigger] rootsv[ri]).name
                                == out@[j]@.root().name && (match graph.spec_get(rootsv[ri]) {
                                Some(p) => out@[j]@.root() =~~= dep_of(p),
                                None => false,
                            })) by {
                            if j < jn {
                                assert(out@[j] == pre_out[j]);
                            }
                        }
                        assert forall|hh: int|
                            0 <= hh < h + 1 implies (exists|j: int|
                            0 <= j < out@.len() && (#[trigger] out@[j])@.root().name
                                == hoisted.keys()[hh]) || !crate::package::info_supported(
                            (#[trigger] hoisted.entries@[hh]).1@.package,
                            os@,
                            cpu@,
                        ) by {
                            if hh == h as int {
                                assert(out@[jn]@.root().name == hoisted.keys()[h as int]);
                            } else {
                                if exists|j: int|
                                    0 <= j < pre_out.len() && (#[trigger] pre_out[j])@.root().name
                                        == hoisted.keys()[hh] {
                                    let j = choose|j: int|
                                        0 <= j < pre_out.len() && (
                                        #[trigger] pre_out[j])@.root().name
                                            == hoisted.keys()[hh];
                                    assert(out@[j] == pre_out[j]);
                                    assert(out@[j]@.root().name == hoisted.keys()[hh]);
                                }
                            }
                        }
                    }
                }
            },
            Ok(None) => {
                proof {
                    let value = hoisted.entries@[h as int].1;
                    // the ancestor chain was empty, so the skip means
                    // the hoisted pick is an unsupported optional
                    assert(!crate::package::info_supported(value@.package, os@, cpu@));
                    if root_names_agree(*graph, rootsv) {
                        assert forall|hh: int|
                            0 <= hh < h + 1 implies (exists|j: int|
                            0 <= j < out@.len() && (#[trigger] out@[j])@.root().name
                                == hoisted.keys()[hh]) || !crate::package::info_supported(
                            (#[trigger] hoisted.entries@[hh]).1@.package,
                            os@,
                            cpu@,
                        ) by {}
                    }
                }
            },
            Err(e2) => {
                return Err(e2);
            },
        }
        h += 1;
    }
    proof {
        if root_names_agree(*graph, rootsv) {
            assert forall|p: PinnedV|
                #![trigger p.package.name]
                reachable(*graph, rootsv, p) implies (exists|j: int|
                0 <= j < out@.len() && (#[trigger] out@[j])@.root().name == p.package.name) || (
            exists|q: PinnedV|
                #![trigger q.package.name]
                reachable(*graph, rootsv, q) && q.package.name == p.package.name
                    && !crate::package::info_supported(q.package, os@, cpu@)) by {
                let n = choose|n: nat| reach_n(*graph, rootsv, p, n);
                lemma_reach_closed(*graph, rootsv, fv, p, n);
                let a = choose|a: int| 0 <= a < fv.len() && fv[a] == p;
                assert(hoist_ok(fv, roots, hoisted));
                assert(hoisted.spec_contains(fv[a].package.name));
                crate::kmap::lemma_key_index(hoisted.keys(), p.package.name);
                let hh = crate::kmap::key_index(hoisted.keys(), p.package.name);
                assert(0 <= hh < hoisted.entries@.len() && hoisted.keys()[hh]
                    == p.package.name);
                if !(exists|j: int|
                    0 <= j < out@.len() && (#[trigger] out@[j])@.root().name
                        == hoisted.keys()[hh]) {
                    let q = hoisted.entries@[hh].1@;
                    assert(!crate::package::info_supported(q.package, os@, cpu@));
                    assert(reachable(*graph, rootsv, q));
                    // the skipped pick bears the looked-up name
                    hoisted.lemma_get_at_index(hh);
                    let k = hoisted.keys()[hh];
                    if roots.spec_contains(k) {
                        let rp = roots.spec_get(k)->Some_0;
                        assert(hoisted.entries@[hh].1@ == rp@);
                        let ri = choose|ri: int|
                            0 <= ri < rootsv.len() && (#[trigger] rootsv[ri]).name == k
                                && graph.spec_get(rootsv[ri]) == Some(rp@);
                        assert(q.package.name == k);
                    } else {
                        assert(q.package.name == k);
                    }
                }
            }
        }
    }
    Ok(out)
}

} // verus!