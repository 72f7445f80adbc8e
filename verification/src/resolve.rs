//! The pinned dependency graph and the resolution session that builds
//! it. A session keeps the set of requests still to pin (`pending`);
//! completing a request inserts its pinned package and queues every
//! child request not already known. Two invariants are carried: every
//! pinned version satisfies its request, and every child of a pinned
//! package is either pinned or pending — so when nothing is pending
//! the graph is closed. The lockfile is the graph's persistent form.

use vstd::prelude::*;
use vstd::string::*;
use crate::errors::{ErrV, ResolveError};
use crate::package::{spec_child_reqs, PackageInfo, PinnedV, VersionedPackageInfo};
use crate::specifier::{req_text, spec_satisfies, PackageSpecifier, ReqV};
use crate::version::Version;

verus! {

/// Index of the first request equal to `k`, or `-1`.
pub open spec fn req_index(keys: Seq<ReqV>, k: ReqV) -> int
    decreases keys.len(),
{
    if keys.len() == 0 {
        -1
    } else if keys[0] == k {
        0
    } else {
        let r = req_index(keys.skip(1), k);
        if r == -1 {
            -1
        } else {
            r + 1
        }
    }
}

pub proof fn lemma_req_index(keys: Seq<ReqV>, k: ReqV)
    ensures
        ({
            let r = req_index(keys, k);
            (r == -1 && (forall|j: int| 0 <= j < keys.len() ==> keys[j] != k)) || (0 <= r
                < keys.len() && keys[r] == k && (forall|j: int| 0 <= j < r ==> keys[j] != k))
        }),
    decreases keys.len(),
{
    if keys.len() > 0 && keys[0] != k {
        lemma_req_index(keys.skip(1), k);
        let r2 = req_index(keys.skip(1), k);
        if r2 == -1 {
            assert forall|j: int| 0 <= j < keys.len() implies keys[j] != k by {
                if j >= 1 {
                    assert(keys.skip(1)[j - 1] == keys[j]);
                }
            }
        } else {
            assert(keys.skip(1)[r2] == keys[r2 + 1]);
            assert forall|j: int| 0 <= j < r2 + 1 implies keys[j] != k by {
                if j >= 1 {
                    assert(keys.skip(1)[j - 1] == keys[j]);
                }
            }
        }
    }
}

pub proof fn lemma_req_index_unique(keys: Seq<ReqV>, k: ReqV, i: int)
    requires
        0 <= i < keys.len(),
        keys[i] == k,
        forall|j: int| 0 <= j < i ==> keys[j] != k,
    ensures
        req_index(keys, k) == i,
{
    lemma_req_index(keys, k);
}

pub proof fn lemma_req_index_none(keys: Seq<ReqV>, k: ReqV)
    requires
        forall|j: int| 0 <= j < keys.len() ==> keys[j] != k,
    ensures
        req_index(keys, k) == -1,
{
    lemma_req_index(keys, k);
}

/// The pinned dependency graph: each request maps to the package
/// pinned for it.
#[derive(Debug)]
pub struct Graph {
    pub relations: Vec<(PackageSpecifier, VersionedPackageInfo)>,
}

impl Graph {
    /// The request keys, in insertion order.
    pub open spec fn req_keys(self) -> Seq<ReqV> {
        self.relations@.map_values(|e: (PackageSpecifier, VersionedPackageInfo)| e.0@)
    }

    /// Requests are pairwise distinct.
    pub open spec fn wf(self) -> bool {
        forall|i: int, j: int|
            0 <= i < j < self.req_keys().len() ==> self.req_keys()[i] != self.req_keys()[j]
    }

    pub open spec fn spec_contains(self, k: ReqV) -> bool {
        req_index(self.req_keys(), k) >= 0
    }

    /// The pinned package for a request, if any.
    pub open spec fn spec_get(self, k: ReqV) -> Option<PinnedV> {
        let i = req_index(self.req_keys(), k);
        if i >= 0 {
            Some(self.relations@[i].1@)
        } else {
            None
        }
    }

    pub fn new() -> (r: Graph)
        ensures
            r.wf(),
            r.relations@.len() == 0,
            forall|k: ReqV| !r.spec_contains(k),
    {
        let r = Graph { relations: Vec::new() };
        proof {
            assert forall|k: ReqV| !r.spec_contains(k) by {
                lemma_req_index(r.req_keys(), k);
            }
        }
        r
    }

    pub fn len(&self) -> (r: usize)
        ensures
            r == self.relations@.len(),
    {
        self.relations.len()
    }

    /// Looks a request up.
    pub fn get(&self, req: &PackageSpecifier) -> (r: Option<&VersionedPackageInfo>)
        ensures
            match r {
                Some(vp) => self.spec_get(req@) == Some(vp@),
                None => self.spec_get(req@) is None,
            },
            (r is Some) == self.spec_contains(req@),
    {
        let mut i: usize = 0;
        while i < self.relations.len()
            invariant
                i <= self.relations@.len(),
                forall|j: int| 0 <= j < i ==> self.req_keys()[j] != req@,
            decreases self.relations@.len() - i,
        {
            if self.relations[i].0.eq_req(req) {
                proof {
                    lemma_req_index_unique(self.req_keys(), req@, i as int);
                }
                return Some(&self.relations[i].1);
            }
            i += 1;
        }
        proof {
            lemma_req_index_none(self.req_keys(), req@);
        }
        None
    }

    pub fn contains(&self, req: &PackageSpecifier) -> (r: bool)
        ensures
            r == self.spec_contains(req@),
    {
        let g = self.get(req);
        g.is_some()
    }

    /// Looks a request up, failing with the lockfile-stale report when
    /// it is absent; under `--immutable` the report suggests dropping
    /// the flag.
    pub fn resolve_req(&self, req: &PackageSpecifier, immutable: bool) -> (r: Result<
        VersionedPackageInfo,
        ResolveError,
    >)
        ensures
            match r {
                Ok(vp) => self.spec_get(req@) == Some(vp@),
                Err(e) => !self.spec_contains(req@) && e@ == (ErrV::MissingFromGraph {
                    req: req_text(req@),
                    immutable,
                }),
            },
    {
        match self.get(req) {
            Some(vp) => Ok(vp.duplicate()),
            None => Err(
                ResolveError::MissingFromGraph { req: req.to_text(), immutable },
            ),
        }
    }

    /// Adds the pin for a request not yet present.
    pub fn insert_new(&mut self, req: PackageSpecifier, vp: VersionedPackageInfo)
        requires
            old(self).wf(),
            !old(self).spec_contains(req@),
        ensures
            final(self).wf(),
            final(self).req_keys() == old(self).req_keys().push(req@),
            final(self).relations@ == old(self).relations@.push((req, vp)),
            final(self).relations@.len() == old(self).relations@.len() + 1,
            final(self).relations@[old(self).relations@.len() as int].1@ == vp@,
            final(self).spec_get(req@) == Some(vp@),
            forall|k: ReqV| k != req@ ==> final(self).spec_get(k) == old(self).spec_get(k),
    {
        let ghost oldkeys = self.req_keys();
        proof {
            lemma_req_index(oldkeys, req@);
        }
        self.relations.push((req, vp));
        proof {
            assert(self.req_keys() =~= oldkeys.push(req@));
            lemma_req_index_unique(self.req_keys(), req@, oldkeys.len() as int);
            assert forall|k: ReqV| k != req@ implies self.spec_get(k) == old(self).spec_get(
                k,
            ) by {
                lemma_req_index(oldkeys, k);
                let j = req_index(oldkeys, k);
                if j >= 0 {
                    lemma_req_index_unique(self.req_keys(), k, j);
                } else {
                    lemma_req_index_none(self.req_keys(), k);
                }
            }
            assert forall|i: int, j: int|
                0 <= i < j < self.req_keys().len() implies self.req_keys()[i]
                != self.req_keys()[j] by {
                if j < oldkeys.len() {
                } else {
                    lemma_req_index(oldkeys, self.req_keys()[i]);
                }
            }
        }
    }
}

/// Whether some request in `p` has the image `r`.
pub open spec fn pending_contains(p: Seq<PackageSpecifier>, r: ReqV) -> bool {
    exists|j: int| 0 <= j < p.len() && p[j]@ == r
}

/// The `c`-th child request of the `i`-th graph entry is pinned or
/// pending.
pub open spec fn entry_children_covered(g: Graph, p: Seq<PackageSpecifier>, i: int) -> bool {
    forall|c: int|
        0 <= c < spec_child_reqs(g.relations@[i].1@.package).len() ==> g.spec_contains(
            #[trigger] spec_child_reqs(g.relations@[i].1@.package)[c],
        ) || pending_contains(p, spec_child_reqs(g.relations@[i].1@.package)[c])
}

/// Every child of every pinned package is itself a key of the graph.
pub open spec fn graph_closed(g: Graph) -> bool {
    forall|i: int, c: int|
        0 <= i < g.relations@.len() && 0 <= c < spec_child_reqs(
            g.relations@[i].1@.package,
        ).len() ==> g.spec_contains(#[trigger] spec_child_reqs(g.relations@[i].1@.package)[c])
}

/// Every pinned version satisfies its request's specifier.
pub open spec fn graph_satisfied(g: Graph) -> bool {
    forall|i: int|
        0 <= i < g.relations@.len() ==> spec_satisfies(
            (#[trigger] g.relations@[i]).0@.spec,
            g.relations@[i].1@.version,
        )
}

/// A pending witness survives any extension that keeps the prefix.
pub proof fn lemma_pending_extend(p: Seq<PackageSpecifier>, q: Seq<PackageSpecifier>, r: ReqV)
    requires
        p.len() <= q.len(),
        forall|j: int| 0 <= j < p.len() ==> q[j] == p[j],
        pending_contains(p, r),
    ensures
        pending_contains(q, r),
{
    let j = choose|j: int| 0 <= j < p.len() && p[j]@ == r;
    assert(q[j]@ == r);
}

/// A resolution session: the graph built so far, and the requests
/// still to pin.
pub struct ResolveState {
    pub graph: Graph,
    pub pending: Vec<PackageSpecifier>,
}

impl ResolveState {
    pub open spec fn wf(self) -> bool {
        &&& self.graph.wf()
        &&& (forall|i: int, j: int|
            0 <= i < j < self.pending@.len() ==> self.pending@[i]@ != self.pending@[j]@)
        &&& (forall|i: int|
            0 <= i < self.pending@.len() ==> !self.graph.spec_contains(
                #[trigger] self.pending@[i]@,
            ))
    }

    /// Children of pinned packages are pinned or pending.
    pub open spec fn covered(self) -> bool {
        forall|i: int|
            0 <= i < self.graph.relations@.len() ==> entry_children_covered(
                self.graph,
                self.pending@,
                i,
            )
    }

    /// Opens a session over an existing graph. Roots already pinned
    /// are not queued, so a closed graph that pins every root leaves
    /// nothing pending — resolving from a complete lockfile asks for
    /// nothing.
    pub fn new_session(graph: Graph, roots: &Vec<PackageSpecifier>) -> (s: ResolveState)
        requires
            graph.wf(),
        ensures
            s.wf(),
            s.graph == graph,
            graph_closed(graph) ==> s.covered(),
            forall|i: int|
                0 <= i < roots@.len() ==> s.graph.spec_contains(#[trigger] roots@[i]@)
                    || pending_contains(s.pending@, roots@[i]@),
            forall|j: int|
                0 <= j < s.pending@.len() ==> pending_contains(roots@, #[trigger] s.pending@[j]@),
            (forall|i: int| 0 <= i < roots@.len() ==> graph.spec_contains(#[trigger] roots@[i]@))
                ==> s.pending@.len() == 0,
    {
        let mut pending: Vec<PackageSpecifier> = Vec::new();
        let mut i: usize = 0;
        while i < roots.len()
            invariant
                i <= roots@.len(),
                graph.wf(),
                forall|a: int, b: int|
                    0 <= a < b < pending@.len() ==> pending@[a]@ != pending@[b]@,
                forall|a: int|
                    0 <= a < pending@.len() ==> !graph.spec_contains(#[trigger] pending@[a]@),
                forall|a: int|
                    0 <= a < i ==> graph.spec_contains(#[trigger] roots@[a]@) || pending_contains(
                        pending@,
                        roots@[a]@,
                    ),
                forall|a: int|
                    0 <= a < pending@.len() ==> pending_contains(roots@, #[trigger] pending@[a]@),
                (forall|a: int|
                    0 <= a < i ==> graph.spec_contains(#[trigger] roots@[a]@)) ==> pending@.len()
                    == 0,
            decreases roots@.len() - i,
        {
            let ghost pstart = pending@;
            let root = &roots[i];
            if !graph.contains(root) {
                let mut seen = false;
                let mut j: usize = 0;
                while j < pending.len()
                    invariant
                        j <= pending@.len(),
                        seen == (exists|b: int| 0 <= b < j && pending@[b]@ == root@),
                    decreases pending@.len() - j,
                {
                    if pending[j].eq_req(root) {
                        seen = true;
                    }
                    j += 1;
                }
                if !seen {
                    pending.push(root.clone());
                }
            }
            proof {
                let ghost pnow = pending@;
                assert forall|a: int|
                    0 <= a < i + 1 implies graph.spec_contains(#[trigger] roots@[a]@)
                    || pending_contains(pnow, roots@[a]@) by {
                    if a < i && !graph.spec_contains(roots@[a]@) {
                        lemma_pending_extend(pstart, pnow, roots@[a]@);
                    }
                    if a == i && !graph.spec_contains(roots@[a]@) {
                        assert(pnow[pnow.len() - 1]@ == roots@[a]@ || pending_contains(
                            pnow,
                            roots@[a]@,
                        ));
                    }
                }
            }
            i += 1;
        }
        let s = ResolveState { graph, pending };
        proof {
            if graph_closed(s.graph) {
                assert forall|i2: int|
                    0 <= i2 < s.graph.relations@.len() implies entry_children_covered(
                    s.graph,
                    s.pending@,
                    i2,
                ) by {}
            }
        }
        s
    }

    /// Whether nothing is pending.
    pub fn finished(&self) -> (r: bool)
        ensures
            r == (self.pending@.len() == 0),
    {
        self.pending.len() == 0
    }

    /// The next request to pin, if any.
    pub fn next_request(&self) -> (r: Option<PackageSpecifier>)
        ensures
            match r {
                Some(q) => self.pending@.len() > 0 && q@ == self.pending@.last()@,
                None => self.pending@.len() == 0,
            },
    {
        if self.pending.len() == 0 {
            None
        } else {
            Some(self.pending[self.pending.len() - 1].clone())
        }
    }

    /// Pins the next pending request with the package resolved for it,
    /// and queues every child request not already pinned or pending.
    /// Both session invariants are preserved.
    pub fn complete_next(&mut self, pinned: VersionedPackageInfo)
        requires
            old(self).wf(),
            old(self).pending@.len() > 0,
            spec_satisfies(old(self).pending@.last()@.spec, pinned@.version),
        ensures
            final(self).wf(),
            old(self).covered() ==> final(self).covered(),
            graph_satisfied(old(self).graph) ==> graph_satisfied(final(self).graph),
            final(self).graph.spec_get(old(self).pending@.last()@) == Some(pinned@),
            forall|k: ReqV|
                k != old(self).pending@.last()@ ==> final(self).graph.spec_get(k) == old(
                    self,
                ).graph.spec_get(k),
            final(self).graph.relations@.len() == old(self).graph.relations@.len() + 1,
    {
        let ghost oldstate = *self;
        let req = match self.pending.pop() {
            Some(q) => q,
            None => {
                proof {
                    assert(false);
                }
                vstd::pervasive::unreached()
            },
        };
        let ghost popped = self.pending@;
        let children = pinned.package.iter();
        let ghost childv = children@.map_values(|p: PackageSpecifier| p@);
        proof {
            assert(childv == spec_child_reqs(pinned@.package));
        }
        self.graph.insert_new(req, pinned);
        let ghost g1 = self.graph;
        proof {
            assert forall|a: int|
                0 <= a < self.pending@.len() implies !self.graph.spec_contains(
                #[trigger] self.pending@[a]@,
            ) by {
                assert(self.pending@[a] == oldstate.pending@[a]);
                assert(oldstate.pending@[a]@ != oldstate.pending@[
                    oldstate.pending@.len() - 1
                ]@);
                assert(oldstate.graph.spec_get(self.pending@[a]@) is None);
            }
        }
        let mut c: usize = 0;
        while c < children.len()
            invariant
                self.graph == g1,
                g1.wf(),
                c <= children@.len(),
                childv == children@.map_values(|p: PackageSpecifier| p@),
                forall|a: int, b: int|
                    0 <= a < b < self.pending@.len() ==> self.pending@[a]@ != self.pending@[b]@,
                forall|a: int|
                    0 <= a < self.pending@.len() ==> !self.graph.spec_contains(
                        #[trigger] self.pending@[a]@,
                    ),
                forall|a: int|
                    0 <= a < popped.len() ==> self.pending@[a]@ == popped[a]@ && a
                        < self.pending@.len(),
                popped.len() <= self.pending@.len(),
                forall|a: int|
                    popped.len() <= a < self.pending@.len() ==> pending_contains(
                        children@,
                        #[trigger] self.pending@[a]@,
                    ),
                forall|a: int|
                    0 <= a < c ==> self.graph.spec_contains(#[trigger] childv[a])
                        || pending_contains(self.pending@, childv[a]),
            decreases children@.len() - c,
        {
            let ghost pstart = self.pending@;
            let child = &children[c];
            if !self.graph.contains(child) {
                let mut seen = false;
                let mut j: usize = 0;
                while j < self.pending.len()
                    invariant
                        j <= self.pending@.len(),
                        seen == (exists|b: int| 0 <= b < j && self.pending@[b]@ == child@),
                    decreases self.pending@.len() - j,
                {
                    if self.pending[j].eq_req(child) {
                        seen = true;
                    }
                    j += 1;
                }
                if !seen {
                    self.pending.push(child.clone());
                }
            }
            proof {
                let pnow = self.pending@;
                assert forall|a: int|
                    0 <= a < c + 1 implies self.graph.spec_contains(#[trigger] childv[a])
                    || pending_contains(pnow, childv[a]) by {
                    if a < c && !self.graph.spec_contains(childv[a]) {
                        lemma_pending_extend(pstart, pnow, childv[a]);
                    }
                    if a == c && !self.graph.spec_contains(childv[a]) {
                        assert(pending_contains(pnow, childv[a]) || pnow[pnow.len() - 1]@
                            == childv[a]);
                    }
                }
            }
            c += 1;
        }
        proof {
            let reqv = oldstate.pending@.last()@;
            // the graph gained exactly the popped request
            assert(self.graph.spec_get(reqv) == Some(pinned@));
            // pending entries stayed off the graph: new ones were pushed
            // only when absent, and old ones differed from the popped
            // request, the only new key
            assert forall|a: int|
                0 <= a < self.pending@.len() implies !self.graph.spec_contains(
                #[trigger] self.pending@[a]@,
            ) by {}
            // coverage: a child of any old entry that pointed at the
            // popped request is now pinned; the rest is unchanged or
            // newly queued
            if oldstate.covered() {
                assert forall|i2: int|
                    0 <= i2 < self.graph.relations@.len() implies entry_children_covered(
                    self.graph,
                    self.pending@,
                    i2,
                ) by {
                    if i2 < oldstate.graph.relations@.len() {
                        assert(entry_children_covered(oldstate.graph, oldstate.pending@, i2));
                        assert(self.graph.relations@[i2] == oldstate.graph.relations@[i2]);
                        assert forall|c2: int|
                            0 <= c2 < spec_child_reqs(
                                self.graph.relations@[i2].1@.package,
                            ).len() implies self.graph.spec_contains(
                            #[trigger] spec_child_reqs(self.graph.relations@[i2].1@.package)[c2],
                        ) || pending_contains(
                            self.pending@,
                            spec_child_reqs(self.graph.relations@[i2].1@.package)[c2],
                        ) by {
                            let ch = spec_child_reqs(self.graph.relations@[i2].1@.package)[c2];
                            if oldstate.graph.spec_contains(ch) {
                                lemma_req_index(oldstate.graph.req_keys(), ch);
                                let x = req_index(oldstate.graph.req_keys(), ch);
                                assert(self.graph.req_keys()[x] == ch);
                                lemma_req_index(self.graph.req_keys(), ch);
                            } else if pending_contains(oldstate.pending@, ch) {
                                let b = choose|b: int|
                                    0 <= b < oldstate.pending@.len() && oldstate.pending@[b]@
                                        == ch;
                                if b == oldstate.pending@.len() - 1 {
                                    assert(self.graph.spec_contains(ch));
                                } else {
                                    assert(b < popped.len());
                                    assert(popped[b] == oldstate.pending@[b]);
                                    assert(self.pending@[b]@ == popped[b]@);
                                    assert(self.pending@[b]@ == ch);
                                }
                            }
                        }
                    } else {
                        // the new entry: its children were walked above
                        assert(self.graph.relations@[i2].1@ == pinned@);
                        assert forall|c2: int|
                            0 <= c2 < spec_child_reqs(
                                self.graph.relations@[i2].1@.package,
                            ).len() implies self.graph.spec_contains(
                            #[trigger] spec_child_reqs(self.graph.relations@[i2].1@.package)[c2],
                        ) || pending_contains(
                            self.pending@,
                            spec_child_reqs(self.graph.relations@[i2].1@.package)[c2],
                        ) by {
                            assert(spec_child_reqs(self.graph.relations@[i2].1@.package)[c2]
                                == childv[c2]);
                        }
                    }
                }
            }
            if graph_satisfied(oldstate.graph) {
                assert forall|i2: int|
                    0 <= i2 < self.graph.relations@.len() implies spec_satisfies(
                    (#[trigger] self.graph.relations@[i2]).0@.spec,
                    self.graph.relations@[i2].1@.version,
                ) by {
                    if i2 < oldstate.graph.relations@.len() {
                        assert(self.graph.relations@[i2] == oldstate.graph.relations@[i2]);
                    }
                }
            }
        }
    }
}

/// A session with nothing pending has a closed graph: resolver
/// closure.
pub proof fn theorem_resolution_closes(s: ResolveState)
    requires
        s.wf(),
        s.covered(),
        s.pending@.len() == 0,
    ensures
        graph_closed(s.graph),
{
    assert forall|i: int, c: int|
        0 <= i < s.graph.relations@.len() && 0 <= c < spec_child_reqs(
            s.graph.relations@[i].1@.package,
        ).len() implies s.graph.spec_contains(
        #[trigger] spec_child_reqs(s.graph.relations@[i].1@.package)[c],
    ) by {
        assert(entry_children_covered(s.graph, s.pending@, i));
    }
}

/// In a satisfied graph, whatever a request is pinned to satisfies its
/// specifier: resolver satisfaction.
pub proof fn theorem_resolution_satisfies(g: Graph, k: ReqV)
    requires
        g.wf(),
        graph_satisfied(g),
        g.spec_contains(k),
    ensures
        spec_satisfies(k.spec, g.spec_get(k)->Some_0.version),
{
    lemma_req_index(g.req_keys(), k);
    let i = req_index(g.req_keys(), k);
    assert(g.relations@[i].0@ == k);
}

/// Decides `graph_satisfied`: whether every pinned version satisfies
/// its request's specifier. A graph the resolver built has this by
/// construction; a graph read from a lockfile is checked with it.
pub fn graph_is_satisfied(graph: &Graph) -> (r: bool)
    ensures
        r == graph_satisfied(*graph),
{
    let mut i: usize = 0;
    while i < graph.relations.len()
        invariant
            i <= graph.relations@.len(),
            forall|j: int|
                0 <= j < i ==> spec_satisfies(
                    (#[trigger] graph.relations@[j]).0@.spec,
                    graph.relations@[j].1@.version,
                ),
        decreases graph.relations@.len() - i,
    {
        let e = &graph.relations[i];
        if !e.0.version.satisfies(&e.1.version) {
            proof {
                assert(!spec_satisfies(
                    graph.relations@[i as int].0@.spec,
                    graph.relations@[i as int].1@.version,
                ));
            }
            return false;
        }
        i += 1;
    }
    true
}

/// Decides `graph_closed`: whether every child request of every
/// pinned package is itself a key of the graph. A graph the resolver
/// finished is closed; a graph read from a lockfile is checked with
/// it.
pub fn graph_is_closed(graph: &Graph) -> (r: bool)
    ensures
        r == graph_closed(*graph),
{
    let mut i: usize = 0;
    while i < graph.relations.len()
        invariant
            i <= graph.relations@.len(),
            forall|j: int, c: int|
                0 <= j < i && 0 <= c < spec_child_reqs(
                    graph.relations@[j].1@.package,
                ).len() ==> graph.spec_contains(
                    #[trigger] spec_child_reqs(graph.relations@[j].1@.package)[c],
                ),
        decreases graph.relations@.len() - i,
    {
        let children = graph.relations[i].1.package.iter();
        let ghost childv = children@.map_values(|q: PackageSpecifier| q@);
        proof {
            assert(childv == spec_child_reqs(graph.relations@[i as int].1@.package));
        }
        let mut c: usize = 0;
        while c < children.len()
            invariant
                childv == children@.map_values(|q: PackageSpecifier| q@),
                childv == spec_child_reqs(graph.relations@[i as int].1@.package),
                i < graph.relations@.len(),
                c <= children@.len(),
                forall|c2: int| 0 <= c2 < c ==> graph.spec_contains(#[trigger] childv[c2]),
            decreases children@.len() - c,
        {
            let child = &children[c];
            if !graph.contains(child) {
                proof {
                    assert(childv[c as int] == child@);
                    assert(!graph.spec_contains(
                        spec_child_reqs(graph.relations@[i as int].1@.package)[c as int],
                    ));
                }
                return false;
            }
            proof {
                assert(childv[c as int] == child@);
            }
            c += 1;
        }
        i += 1;
    }
    true
}

/// Whether the `i`-th graph entry depends on a package pinned as
/// `(name, version)`: some child request of its pinned package
/// resolves, in the graph, to that name and version.
pub open spec fn spec_depends_on(
    g: Graph,
    i: int,
    name: Seq<char>,
    version: crate::version::VersionV,
) -> bool {
    exists|c: int|
        0 <= c < spec_child_reqs(g.relations@[i].1@.package).len() && match g.spec_get(
            #[trigger] spec_child_reqs(g.relations@[i].1@.package)[c],
        ) {
            Some(p) => p.package.name == name && p.version == version,
            None => false,
        }
}

/// The requests among the first `n` graph entries that depend on
/// `(name, version)`, in graph order.
pub open spec fn spec_dependents_upto(
    g: Graph,
    n: int,
    name: Seq<char>,
    version: crate::version::VersionV,
) -> Seq<ReqV>
    decreases n,
{
    if n <= 0 {
        Seq::empty()
    } else {
        let rest = spec_dependents_upto(g, n - 1, name, version);
        if spec_depends_on(g, n - 1, name, version) {
            rest.push(g.relations@[n - 1].0@)
        } else {
            rest
        }
    }
}

/// The requests whose pinned package depends on `(name, version)`, in
/// graph order: the reverse-dependency trace behind `why`.
#[verifier::rlimit(100)]
pub fn dependents_of(
    graph: &Graph,
    name: &str,
    version: &crate::version::Version,
) -> (r: Vec<PackageSpecifier>)
    ensures
        r@.map_values(|p: PackageSpecifier| p@) == spec_dependents_upto(
            *graph,
            graph.relations@.len() as int,
            name@,
            version@,
        ),
{
    let mut r: Vec<PackageSpecifier> = Vec::new();
    let mut i: usize = 0;
    proof {
        assert(r@.map_values(|p: PackageSpecifier| p@) =~= spec_dependents_upto(
            *graph,
            0,
            name@,
            version@,
        ));
    }
    while i < graph.relations.len()
        invariant
            i <= graph.relations@.len(),
            r@.map_values(|p: PackageSpecifier| p@) == spec_dependents_upto(
                *graph,
                i as int,
                name@,
                version@,
            ),
        decreases graph.relations@.len() - i,
    {
        let children = graph.relations[i].1.package.iter();
        let ghost childv = children@.map_values(|p: PackageSpecifier| p@);
        proof {
            assert(childv == spec_child_reqs(graph.relations@[i as int].1@.package));
        }
        let mut depends = false;
        let mut c: usize = 0;
        while c < children.len()
            invariant
                childv == children@.map_values(|p: PackageSpecifier| p@),
                childv == spec_child_reqs(graph.relations@[i as int].1@.package),
                i < graph.relations@.len(),
                c <= children@.len(),
                depends ==> spec_depends_on(*graph, i as int, name@, version@),
                !depends ==> forall|c2: int|
                    0 <= c2 < c ==> !(match graph.spec_get(#[trigger] childv[c2]) {
                        Some(p) => p.package.name == name@ && p.version == version@,
                        None => false,
                    }),
            decreases children@.len() - c,
        {
            let child = &children[c];
            match graph.get(child) {
                Some(p) => {
                    if crate::strutil::str_eq(p.package.name.as_str(), name)
                        && p.version.eq_version(version) {
                        proof {
                            assert(childv[c as int] == child@);
                        }
                        depends = true;
                    }
                },
                None => {},
            }
            proof {
                assert(childv[c as int] == child@);
            }
            c += 1;
        }
        if depends {
            r.push(graph.relations[i].0.clone());
        } else {
            proof {
                assert(!spec_depends_on(*graph, i as int, name@, version@));
            }
        }
        proof {
            assert(r@.map_values(|p: PackageSpecifier| p@) =~= spec_dependents_upto(
                *graph,
                i as int + 1,
                name@,
                version@,
            ));
        }
        i += 1;
    }
    r
}

/// The lockfile: the graph's persistent form, keyed by request.
#[derive(Debug)]
pub struct Lockfile {
    pub relations: Vec<(PackageSpecifier, (Version, PackageInfo))>,
}

impl Lockfile {
    /// Writes a graph down as lockfile content.
    pub fn new(graph: &Graph) -> (r: Lockfile)
        ensures
            r.relations@.len() == graph.relations@.len(),
            forall|i: int|
                0 <= i < graph.relations@.len() ==> (#[trigger] r.relations@[i]).0@
                    == graph.relations@[i].0@ && r.relations@[i].1.0@
                    == graph.relations@[i].1@.version && r.relations@[i].1.1@
                    == graph.relations@[i].1@.package,
    {
        let mut relations: Vec<(PackageSpecifier, (Version, PackageInfo))> = Vec::new();
        let mut i: usize = 0;
        while i < graph.relations.len()
            invariant
                i <= graph.relations@.len(),
                relations@.len() == i,
                forall|j: int|
                    0 <= j < i ==> (#[trigger] relations@[j]).0@ == graph.relations@[j].0@
                        && relations@[j].1.0@ == graph.relations@[j].1@.version
                        && relations@[j].1.1@ == graph.relations@[j].1@.package,
            decreases graph.relations@.len() - i,
        {
            let e = &graph.relations[i];
            relations.push(
                (e.0.clone(), (e.1.version.clone(), e.1.package.duplicate())),
            );
            i += 1;
        }
        Lockfile { relations }
    }

    /// Reads lockfile content back into a graph.
    pub fn into_graph(&self) -> (r: Graph)
        ensures
            r.relations@.len() == self.relations@.len(),
            forall|i: int|
                0 <= i < self.relations@.len() ==> (#[trigger] r.relations@[i]).0@
                    == self.relations@[i].0@ && r.relations@[i].1@.version
                    == self.relations@[i].1.0@ && r.relations@[i].1@.package
                    == self.relations@[i].1.1@,
    {
        let mut relations: Vec<(PackageSpecifier, VersionedPackageInfo)> = Vec::new();
        let mut i: usize = 0;
        while i < self.relations.len()
            invariant
                i <= self.relations@.len(),
                relations@.len() == i,
                forall|j: int|
                    0 <= j < i ==> (#[trigger] relations@[j]).0@ == self.relations@[j].0@
                        && relations@[j].1@.version == self.relations@[j].1.0@
                        && relations@[j].1@.package == self.relations@[j].1.1@,
            decreases self.relations@.len() - i,
        {
            let e = &self.relations[i];
            relations.push(
                (
                    e.0.clone(),
                    VersionedPackageInfo {
                        package: e.1.1.duplicate(),
                        version: e.1.0.clone(),
                    },
                ),
            );
            i += 1;
        }
        Graph { relations }
    }
}

/// Writing a graph to a lockfile and reading it back yields a graph
/// with the same requests pinned to the same packages: the lockfile
/// round-trip.
pub proof fn theorem_lockfile_roundtrip(g: Graph, l: Lockfile, g2: Graph)
    requires
        l.relations@.len() == g.relations@.len(),
        forall|i: int|
            0 <= i < g.relations@.len() ==> (#[trigger] l.relations@[i]).0@ == g.relations@[i].0@
                && l.relations@[i].1.0@ == g.relations@[i].1@.version && l.relations@[i].1.1@
                == g.relations@[i].1@.package,
        g2.relations@.len() == l.relations@.len(),
        forall|i: int|
            0 <= i < l.relations@.len() ==> (#[trigger] g2.relations@[i]).0@ == l.relations@[i].0@
                && g2.relations@[i].1@.version == l.relations@[i].1.0@ && g2.relations@[i].1@.package
                == l.relations@[i].1.1@,
    ensures
        g2.req_keys() == g.req_keys(),
        forall|k: ReqV| g2.spec_get(k) == g.spec_get(k),
{
    assert(g2.req_keys() =~= g.req_keys());
    assert forall|k: ReqV| g2.spec_get(k) == g.spec_get(k) by {
        lemma_req_index(g.req_keys(), k);
        let i = req_index(g.req_keys(), k);
        if i >= 0 {
            assert(g2.relations@[i].1@ =~= g.relations@[i].1@);
        }
    }
}

} // verus!
