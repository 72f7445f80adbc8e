//! The installation plan: pinned dependencies arranged as hoisted
//! trees, one per top-level local name.

use vstd::prelude::*;
use vstd::string::*;
use crate::kmap::KeyMap;
use crate::package::Dist;
use crate::version::{version_text, Version, VersionV};

verus! {

broadcast use vstd::seq::axiom_seq_index_decreases, vstd::std_specs::vec::axiom_vec_index_decreases;

/// The stable identity of an installable package: what the store and
/// the installer need to know.
#[derive(Debug)]
pub struct Dependency {
    pub name: String,
    pub version: Version,
    pub dist: Dist,
    pub bins: KeyMap<String>,
    pub scripts: KeyMap<String>,
}

/// Mathematical image of a `Dependency`.
#[verifier::ext_equal]
pub struct DepV {
    pub name: Seq<char>,
    pub version: VersionV,
    pub dist: Seq<char>,
    pub bins: Seq<(Seq<char>, Seq<char>)>,
    pub scripts: Seq<(Seq<char>, Seq<char>)>,
}

impl View for Dependency {
    type V = DepV;

    open spec fn view(&self) -> DepV {
        DepV {
            name: self.name@,
            version: self.version@,
            dist: self.dist@,
            bins: self.bins@,
            scripts: self.scripts@,
        }
    }
}

/// A hoisted installation tree: a pinned package and its nested
/// children, keyed by local name.
#[derive(Debug)]
pub struct DependencyTree {
    pub root: Dependency,
    pub children: Vec<(String, DependencyTree)>,
}

/// Mathematical image of a tree.
#[verifier::ext_equal]
pub enum TreeV {
    Node { root: DepV, children: Seq<(Seq<char>, TreeV)> },
}

impl TreeV {
    pub open spec fn root(self) -> DepV {
        match self {
            TreeV::Node { root, .. } => root,
        }
    }

    pub open spec fn children(self) -> Seq<(Seq<char>, TreeV)> {
        match self {
            TreeV::Node { children, .. } => children,
        }
    }
}

/// The view of a tree, computed structurally.
pub open spec fn tree_view(t: DependencyTree) -> TreeV
    decreases t,
{
    TreeV::Node {
        root: t.root@,
        children: Seq::new(
            t.children@.len(),
            |i: int|
                if 0 <= i < t.children@.len() {
                    (t.children@[i].0@, tree_view(t.children@[i].1))
                } else {
                    (Seq::<char>::empty(), TreeV::Node { root: t.root@, children: Seq::empty() })
                },
        ),
    }
}

impl View for DependencyTree {
    type V = TreeV;

    open spec fn view(&self) -> TreeV {
        tree_view(*self)
    }
}

/// A path separator becomes `!`; other characters stay.
pub open spec fn sep_swap(c: char) -> char {
    if c == '/' {
        '!'
    } else {
        c
    }
}

/// `s` with every path separator swapped to `!`.
pub open spec fn swapped(s: Seq<char>) -> Seq<char>
    decreases s.len(),
{
    if s.len() == 0 {
        Seq::empty()
    } else {
        swapped(s.drop_last()).push(sep_swap(s.last()))
    }
}

/// The store key of a pinned package: `name@version`, with any path
/// separator in the name replaced by `!`.
pub open spec fn id_text(name: Seq<char>, v: VersionV) -> Seq<char> {
    swapped(name + seq!['@'] + version_text(v))
}

fn replace_sep(s: &str) -> (r: String)
    ensures
        r@ == swapped(s@),
{
    let len = s.unicode_len();
    let mut r = String::new();
    let mut i: usize = 0;
    proof {
        reveal_strlit("!");
        assert(r@ =~= swapped(s@.take(0)));
    }
    while i < len
        invariant
            len == s@.len(),
            i <= len,
            r@ == swapped(s@.take(i as int)),
        decreases len - i,
    {
        if s.get_char(i) == '/' {
            r.append("!");
            proof {
                reveal_strlit("!");
                assert("!"@.len() == 1 && "!"@[0] == '!');
            }
        } else {
            let piece = s.substring_char(i, i + 1);
            r.append(piece);
            proof {
                assert(piece@ =~= seq![s@[i as int]]);
            }
        }
        proof {
            assert(s@.take(i as int + 1).drop_last() =~= s@.take(i as int));
            assert(s@.take(i as int + 1).last() == s@[i as int]);
            assert(r@ =~= swapped(s@.take(i as int + 1)));
        }
        i += 1;
    }
    proof {
        assert(s@.take(len as int) =~= s@);
    }
    r
}

impl Dependency {
    /// Renders the store key of this package.
    pub fn id(&self) -> (r: String)
        ensures
            r@ == id_text(self@.name, self@.version),
    {
        let mut t = self.name.clone();
        t.append("@");
        let vt = self.version.to_text();
        t.append(vt.as_str());
        proof {
            reveal_strlit("@");
            assert(t@ =~= self@.name + seq!['@'] + version_text(self@.version));
        }
        replace_sep(t.as_str())
    }

    /// Equality of pinned identities.
    pub fn eq_dep(&self, other: &Dependency) -> (r: bool)
        ensures
            r == (self@ =~~= other@),
    {
        let mut r = crate::strutil::str_eq(self.name.as_str(), other.name.as_str());
        r = r && self.version.eq_version(&other.version);
        r = r && crate::strutil::str_eq(self.dist.tarball.as_str(), other.dist.tarball.as_str());
        r = r && eq_string_map(&self.bins, &other.bins);
        r = r && eq_string_map(&self.scripts, &other.scripts);
        r
    }
}

/// Equality of two name-to-text maps, entry by entry.
pub fn eq_string_map(a: &KeyMap<String>, b: &KeyMap<String>) -> (r: bool)
    ensures
        r == (a@ =~= b@),
{
    if a.entries.len() != b.entries.len() {
        return false;
    }
    let mut i: usize = 0;
    while i < a.entries.len()
        invariant
            a.entries@.len() == b.entries@.len(),
            i <= a.entries@.len(),
            forall|j: int| 0 <= j < i ==> a@[j] == b@[j],
        decreases a.entries@.len() - i,
    {
        let ea = &a.entries[i];
        let eb = &b.entries[i];
        if !crate::strutil::str_eq(ea.0.as_str(), eb.0.as_str()) {
            proof {
                assert(a@[i as int].0 != b@[i as int].0);
            }
            return false;
        }
        if !crate::strutil::str_eq(ea.1.as_str(), eb.1.as_str()) {
            proof {
                assert(a@[i as int].1 != b@[i as int].1);
            }
            return false;
        }
        proof {
            assert(a@[i as int] =~= b@[i as int]);
        }
        i += 1;
    }
    true
}

/// Whether `d` occurs in the excluded set.
pub open spec fn dep_in(ex: Seq<DepV>, d: DepV) -> bool {
    exists|i: int| 0 <= i < ex.len() && ex[i] =~~= d
}

fn dep_in_exec(ex: &Vec<Dependency>, d: &Dependency) -> (r: bool)
    ensures
        r == dep_in(ex@.map_values(|e: Dependency| e@), d@),
{
    let ghost exv = ex@.map_values(|e: Dependency| e@);
    let mut i: usize = 0;
    while i < ex.len()
        invariant
            exv == ex@.map_values(|e: Dependency| e@),
            i <= ex@.len(),
            forall|j: int| 0 <= j < i ==> !(exv[j] =~~= d@),
        decreases ex@.len() - i,
    {
        if ex[i].eq_dep(d) {
            proof {
                assert(exv[i as int] =~~= d@);
            }
            return true;
        }
        i += 1;
    }
    false
}

/// The children that survive filtering: those whose root is not
/// excluded, each filtered in turn.
pub open spec fn filter_children(cs: Seq<(Seq<char>, TreeV)>, ex: Seq<DepV>) -> Seq<
    (Seq<char>, TreeV),
>
    decreases cs,
{
    if cs.len() == 0 {
        Seq::empty()
    } else {
        let rest = filter_children(cs.drop_last(), ex);
        if dep_in(ex, cs.last().1.root()) {
            rest
        } else {
            rest.push((cs.last().0, spec_filter(cs.last().1, ex)))
        }
    }
}

/// A tree with every excluded package pruned, at every depth.
pub open spec fn spec_filter(t: TreeV, ex: Seq<DepV>) -> TreeV
    decreases t,
{
    TreeV::Node { root: t.root(), children: filter_children(t.children(), ex) }
}

impl DependencyTree {
    /// Prunes every subtree whose root was hoisted away.
    pub fn filter(&self, exclude: &Vec<Dependency>) -> (r: DependencyTree)
        ensures
            r@ == spec_filter(self@, exclude@.map_values(|e: Dependency| e@)),
        decreases *self,
    {
        let ghost exv = exclude@.map_values(|e: Dependency| e@);
        let mut children: Vec<(String, DependencyTree)> = Vec::new();
        let mut i: usize = 0;
        proof {
            assert(self@.children().take(0) =~= Seq::<(Seq<char>, TreeV)>::empty());
            assert(children@.map_values(|e: (String, DependencyTree)| (e.0@, e.1@))
                =~= filter_children(self@.children().take(0), exv));
        }
        while i < self.children.len()
            invariant
                exv == exclude@.map_values(|e: Dependency| e@),
                i <= self.children@.len(),
                self@.children().len() == self.children@.len(),
                forall|j: int|
                    0 <= j < self.children@.len() ==> #[trigger] self@.children()[j] == (
                    self.children@[j].0@,
                    tree_view(self.children@[j].1),
                ),
                children@.map_values(|e: (String, DependencyTree)| (e.0@, e.1@))
                    == filter_children(self@.children().take(i as int), exv),
            decreases self.children@.len() - i,
        {
            let entry = &self.children[i];
            if !dep_in_exec(exclude, &entry.1.root) {
                let sub = entry.1.filter(exclude);
                children.push((entry.0.clone(), sub));
            }
            proof {
                assert(self@.children().take(i as int + 1).drop_last() =~= self@.children().take(
                    i as int,
                ));
                assert(self@.children().take(i as int + 1).last() == self@.children()[i as int]);
                assert(children@.map_values(|e: (String, DependencyTree)| (e.0@, e.1@))
                    =~= filter_children(self@.children().take(i as int + 1), exv));
            }
            i += 1;
        }
        let r = DependencyTree { root: self.root.duplicate(), children };
        proof {
            assert(self@.children().take(self.children@.len() as int) =~= self@.children());
            assert(r@.children() =~= children@.map_values(
                |e: (String, DependencyTree)| (e.0@, e.1@),
            ));
            assert(r@ =~~= spec_filter(self@, exv));
        }
        r
    }
}

impl Dependency {
    pub fn duplicate(&self) -> (r: Dependency)
        ensures
            r@ =~~= self@,
    {
        Dependency {
            name: self.name.clone(),
            version: self.version.clone(),
            dist: self.dist.duplicate(),
            bins: crate::package::dup_string_map(&self.bins),
            scripts: crate::package::dup_string_map(&self.scripts),
        }
    }
}

/// The installation plan: one hoisted tree per top-level local name.
#[derive(Debug)]
pub struct Plan {
    pub trees: Vec<(String, DependencyTree)>,
}

impl View for Plan {
    type V = Seq<(Seq<char>, TreeV)>;

    open spec fn view(&self) -> Seq<(Seq<char>, TreeV)> {
        self.trees@.map_values(|e: (String, DependencyTree)| (e.0@, e.1@))
    }
}

impl Plan {
    pub fn new(trees: Vec<(String, DependencyTree)>) -> (r: Plan)
        ensures
            r.trees == trees,
    {
        Plan { trees }
    }
}

/// Whether some top-level tree pins `name` to a version satisfying
/// `spec`.
pub open spec fn plan_covers(trees: Seq<(Seq<char>, TreeV)>, req: crate::specifier::ReqV) -> bool {
    exists|j: int|
        0 <= j < trees.len() && (#[trigger] trees[j]).1.root().name == req.name
            && crate::specifier::spec_satisfies(req.spec, trees[j].1.root().version)
}

/// A plan satisfies a manifest exactly when every root request the
/// manifest declares is covered at the top level by a satisfying
/// version.
pub open spec fn spec_plan_satisfies(
    trees: Seq<(Seq<char>, TreeV)>,
    m: crate::package::MetaV,
) -> bool {
    forall|i: int|
        0 <= i < crate::package::spec_root_reqs(m).len() ==> plan_covers(
            trees,
            #[trigger] crate::package::spec_root_reqs(m)[i],
        )
}

impl Plan {
    /// Decides whether this plan satisfies the manifest: the
    /// fast path for "already installed".
    pub fn satisfies(&self, manifest: &crate::package::PackageMetadata) -> (r: bool)
        ensures
            r == spec_plan_satisfies(self@, manifest@),
    {
        let reqs = manifest.iter_all();
        let ghost reqv = crate::package::spec_root_reqs(manifest@);
        let mut i: usize = 0;
        while i < reqs.len()
            invariant
                reqv == crate::package::spec_root_reqs(manifest@),
                reqs@.map_values(|p: crate::specifier::PackageSpecifier| p@) == reqv,
                i <= reqs@.len(),
                forall|j: int| 0 <= j < i ==> plan_covers(self@, reqv[j]),
            decreases reqs@.len() - i,
        {
            let req = &reqs[i];
            proof {
                assert(reqs@.map_values(|p: crate::specifier::PackageSpecifier| p@)[i as int]
                    == reqv[i as int]);
                assert(reqs@[i as int]@ == reqv[i as int]);
            }
            let mut covered = false;
            let mut j: usize = 0;
            while j < self.trees.len()
                invariant
                    i < reqs@.len(),
                    reqs@.map_values(|p: crate::specifier::PackageSpecifier| p@) == reqv,
                    req == reqs@[i as int],
                    req@ == reqv[i as int],
                    j <= self.trees@.len(),
                    self@.len() == self.trees@.len(),
                    covered ==> plan_covers(self@, reqv[i as int]),
                    !covered ==> forall|b: int|
                        0 <= b < j ==> !((#[trigger] self@[b]).1.root().name == reqv[i as int].name
                            && crate::specifier::spec_satisfies(
                            reqv[i as int].spec,
                            self@[b].1.root().version,
                        )),
                decreases self.trees@.len() - j,
            {
                let tree = &self.trees[j].1;
                if crate::strutil::str_eq(tree.root.name.as_str(), req.name.as_str()) {
                    if req.version.satisfies(&tree.root.version) {
                        proof {
                            assert(self@[j as int].1 == tree_view(*tree));
                            assert(self@[j as int].1.root() == tree.root@);
                        }
                        covered = true;
                    }
                }
                proof {
                    assert(self@[j as int].1 == tree_view(self.trees@[j as int].1));
                }
                j += 1;
            }
            if !covered {
                proof {
                    assert(!plan_covers(self@, reqv[i as int]));
                }
                return false;
            }
            i += 1;
        }
        true
    }
}

impl DependencyTree {
    /// Equality of two trees, node by node.
    pub fn eq_tree(&self, other: &DependencyTree) -> (r: bool)
        ensures
            r == (self@ =~~= other@),
        decreases *self,
    {
        if !self.root.eq_dep(&other.root) {
            return false;
        }
        if self.children.len() != other.children.len() {
            proof {
                assert(self@.children().len() != other@.children().len());
            }
            return false;
        }
        let mut i: usize = 0;
        while i < self.children.len()
            invariant
                self.children@.len() == other.children@.len(),
                i <= self.children@.len(),
                self.root@ =~~= other.root@,
                self@.children().len() == self.children@.len(),
                other@.children().len() == other.children@.len(),
                forall|j: int|
                    0 <= j < i ==> #[trigger] self@.children()[j] =~~= other@.children()[j],
            decreases self.children@.len() - i,
        {
            proof {
                assert(self@.children()[i as int] == (
                    self.children@[i as int].0@,
                    tree_view(self.children@[i as int].1),
                ));
                assert(other@.children()[i as int] == (
                    other.children@[i as int].0@,
                    tree_view(other.children@[i as int].1),
                ));
            }
            if !crate::strutil::str_eq(
                self.children[i].0.as_str(),
                other.children[i].0.as_str(),
            ) {
                proof {
                    assert(self@.children()[i as int].0 != other@.children()[i as int].0);
                }
                return false;
            }
            if !self.children[i].1.eq_tree(&other.children[i].1) {
                proof {
                    assert(self@.children()[i as int].1 != other@.children()[i as int].1);
                }
                return false;
            }
            i += 1;
        }
        proof {
            assert(self@.children() =~= other@.children());
            assert(self@ =~~= other@);
        }
        true
    }
}

impl Plan {
    /// Equality of two plans, tree by tree.
    pub fn eq_plan(&self, other: &Plan) -> (r: bool)
        ensures
            r == (self@ =~= other@),
    {
        if self.trees.len() != other.trees.len() {
            return false;
        }
        let mut i: usize = 0;
        while i < self.trees.len()
            invariant
                self.trees@.len() == other.trees@.len(),
                i <= self.trees@.len(),
                forall|j: int| 0 <= j < i ==> #[trigger] self@[j] =~~= other@[j],
            decreases self.trees@.len() - i,
        {
            if !crate::strutil::str_eq(self.trees[i].0.as_str(), other.trees[i].0.as_str()) {
                proof {
                    assert(self@[i as int].0 != other@[i as int].0);
                }
                return false;
            }
            if !self.trees[i].1.eq_tree(&other.trees[i].1) {
                proof {
                    assert(self@[i as int].1 != other@[i as int].1);
                }
                return false;
            }
            i += 1;
        }
        proof {
            assert(self@ =~= other@);
        }
        true
    }
}

/// Whether an install may be skipped wholesale: the plan on disk
/// equals the newly computed plan, and that plan still satisfies the
/// manifest.
pub fn verify_installation(
    installed: &Plan,
    plan: &Plan,
    manifest: &crate::package::PackageMetadata,
) -> (r: bool)
    ensures
        r == (installed@ =~= plan@ && spec_plan_satisfies(installed@, manifest@)),
{
    installed.eq_plan(plan) && installed.satisfies(manifest)
}

/// One unit of installer work: the ancestor chain and the package to
/// materialize under it.
#[derive(Debug)]
pub struct InstallJob {
    pub prefix: Vec<String>,
    pub dep: Dependency,
}

impl View for InstallJob {
    type V = (Seq<Seq<char>>, DepV);

    open spec fn view(&self) -> (Seq<Seq<char>>, DepV) {
        (self.prefix@.map_values(|x: String| x@), self.dep@)
    }
}

/// The jobs a tree contributes: its own root under the given chain,
/// then every child's jobs under the chain extended with the root's
/// name — so an ancestor's job always precedes its descendants'.
pub open spec fn spec_jobs(t: TreeV, prefix: Seq<Seq<char>>) -> Seq<(Seq<Seq<char>>, DepV)>
    decreases t,
{
    seq![(prefix, t.root())] + jobs_of_children(t.children(), prefix.push(t.root().name))
}

pub open spec fn jobs_of_children(
    cs: Seq<(Seq<char>, TreeV)>,
    prefix: Seq<Seq<char>>,
) -> Seq<(Seq<Seq<char>>, DepV)>
    decreases cs,
{
    if cs.len() == 0 {
        Seq::empty()
    } else {
        jobs_of_children(cs.drop_last(), prefix) + spec_jobs(cs.last().1, prefix)
    }
}

/// Every job of a tree carries the given chain or a longer one; the
/// first job is the root's, under exactly the given chain. This is
/// the ancestor-before-descendant order of installation.
pub proof fn lemma_jobs_parent_first(t: TreeV, prefix: Seq<Seq<char>>)
    ensures
        spec_jobs(t, prefix).len() >= 1,
        spec_jobs(t, prefix)[0] == (prefix, t.root()),
        forall|i: int|
            1 <= i < spec_jobs(t, prefix).len() ==> (#[trigger] spec_jobs(t, prefix)[i]).0.len()
                > prefix.len(),
    decreases t,
{
    lemma_jobs_children_deeper(t.children(), prefix.push(t.root().name));
    assert forall|i: int|
        1 <= i < spec_jobs(t, prefix).len() implies (#[trigger] spec_jobs(t, prefix)[i]).0.len()
        > prefix.len() by {
        assert(spec_jobs(t, prefix)[i] == jobs_of_children(
            t.children(),
            prefix.push(t.root().name),
        )[i - 1]);
    }
}

proof fn lemma_jobs_children_deeper(cs: Seq<(Seq<char>, TreeV)>, prefix: Seq<Seq<char>>)
    ensures
        forall|i: int|
            0 <= i < jobs_of_children(cs, prefix).len() ==> (#[trigger] jobs_of_children(
                cs,
                prefix,
            )[i]).0.len() >= prefix.len(),
    decreases cs,
{
    if cs.len() > 0 {
        lemma_jobs_children_deeper(cs.drop_last(), prefix);
        lemma_jobs_parent_first(cs.last().1, prefix);
        lemma_jobs_children_deeper(cs.last().1.children(), prefix.push(cs.last().1.root().name));
        let pre = jobs_of_children(cs.drop_last(), prefix);
        let own = spec_jobs(cs.last().1, prefix);
        assert forall|i: int|
            0 <= i < jobs_of_children(cs, prefix).len() implies (#[trigger] jobs_of_children(
                cs,
                prefix,
            )[i]).0.len() >= prefix.len() by {
            if i < pre.len() {
                assert(jobs_of_children(cs, prefix)[i] == pre[i]);
            } else {
                assert(jobs_of_children(cs, prefix)[i] == own[i - pre.len()]);
                if i - pre.len() >= 1 {
                } else {
                    assert(own[0] == (prefix, cs.last().1.root()));
                }
            }
        }
    }
}

fn dup_string_vec(v: &Vec<String>) -> (r: Vec<String>)
    ensures
        r@.map_values(|x: String| x@) == v@.map_values(|x: String| x@),
{
    let mut r: Vec<String> = Vec::new();
    let mut i: usize = 0;
    while i < v.len()
        invariant
            i <= v@.len(),
            r@.len() == i,
            forall|j: int| 0 <= j < i ==> r@[j]@ == v@[j]@,
        decreases v@.len() - i,
    {
        r.push(v[i].clone());
        i += 1;
    }
    proof {
        assert(r@.map_values(|x: String| x@) =~= v@.map_values(|x: String| x@));
    }
    r
}

fn tree_jobs(t: &DependencyTree, prefix: &Vec<String>, out: &mut Vec<InstallJob>)
    ensures
        final(out)@.map_values(|j: InstallJob| j@) == old(out)@.map_values(|j: InstallJob| j@)
            + spec_jobs(t@, prefix@.map_values(|x: String| x@)),
    decreases *t,
{
    let ghost pv = prefix@.map_values(|x: String| x@);
    let ghost before = out@.map_values(|j: InstallJob| j@);
    out.push(InstallJob { prefix: dup_string_vec(prefix), dep: t.root.duplicate() });
    proof {
        assert(out@.map_values(|j: InstallJob| j@) =~= before + seq![(pv, t@.root())]);
    }
    let mut child_prefix = dup_string_vec(prefix);
    child_prefix.push(t.root.name.clone());
    let ghost cpv = child_prefix@.map_values(|x: String| x@);
    proof {
        assert(cpv =~= pv.push(t@.root().name));
    }
    let mut i: usize = 0;
    proof {
        assert(t@.children().take(0) =~= Seq::<(Seq<char>, TreeV)>::empty());
    }
    while i < t.children.len()
        invariant
            pv == prefix@.map_values(|x: String| x@),
            cpv == child_prefix@.map_values(|x: String| x@),
            cpv == pv.push(t@.root().name),
            i <= t.children@.len(),
            t@.children().len() == t.children@.len(),
            forall|j: int|
                0 <= j < t.children@.len() ==> #[trigger] t@.children()[j] == (
                    t.children@[j].0@,
                    tree_view(t.children@[j].1),
                ),
            out@.map_values(|j: InstallJob| j@) == before + seq![(pv, t@.root())]
                + jobs_of_children(t@.children().take(i as int), cpv),
        decreases t.children@.len() - i,
    {
        tree_jobs(&t.children[i].1, &child_prefix, out);
        proof {
            assert(t@.children().take(i as int + 1).drop_last() =~= t@.children().take(i as int));
            assert(t@.children().take(i as int + 1).last() == t@.children()[i as int]);
            assert(out@.map_values(|j: InstallJob| j@) =~= before + seq![(pv, t@.root())]
                + jobs_of_children(t@.children().take(i as int + 1), cpv));
        }
        i += 1;
    }
    proof {
        assert(t@.children().take(t.children@.len() as int) =~= t@.children());
        assert(before + seq![(pv, t@.root())] + jobs_of_children(t@.children(), cpv) =~= before
            + spec_jobs(t@, pv));
    }
}

/// The jobs a whole plan schedules, tree by tree.
pub open spec fn spec_plan_jobs(trees: Seq<(Seq<char>, TreeV)>) -> Seq<(Seq<Seq<char>>, DepV)>
    decreases trees,
{
    if trees.len() == 0 {
        Seq::empty()
    } else {
        spec_plan_jobs(trees.drop_last()) + spec_jobs(trees.last().1, Seq::empty())
    }
}

/// Flattens the plan into installer work in schedule order: every
/// package's job comes before any of its descendants'.
pub fn install_jobs(plan: &Plan) -> (r: Vec<InstallJob>)
    ensures
        r@.map_values(|j: InstallJob| j@) == spec_plan_jobs(plan@),
{
    let mut out: Vec<InstallJob> = Vec::new();
    let empty_prefix: Vec<String> = Vec::new();
    let mut i: usize = 0;
    proof {
        assert(plan@.take(0) =~= Seq::<(Seq<char>, TreeV)>::empty());
        assert(out@.map_values(|j: InstallJob| j@) =~= spec_plan_jobs(plan@.take(0)));
    }
    while i < plan.trees.len()
        invariant
            i <= plan.trees@.len(),
            plan@.len() == plan.trees@.len(),
            empty_prefix@.len() == 0,
            forall|j: int|
                0 <= j < plan.trees@.len() ==> #[trigger] plan@[j] == (
                    plan.trees@[j].0@,
                    tree_view(plan.trees@[j].1),
                ),
            out@.map_values(|j: InstallJob| j@) == spec_plan_jobs(plan@.take(i as int)),
        decreases plan.trees@.len() - i,
    {
        tree_jobs(&plan.trees[i].1, &empty_prefix, &mut out);
        proof {
            assert(plan@.take(i as int + 1).drop_last() =~= plan@.take(i as int));
            assert(plan@.take(i as int + 1).last() == plan@[i as int]);
            assert(empty_prefix@.map_values(|x: String| x@) =~= Seq::<Seq<char>>::empty());
            assert(out@.map_values(|j: InstallJob| j@) =~= spec_plan_jobs(
                plan@.take(i as int + 1),
            ));
        }
        i += 1;
    }
    proof {
        assert(plan@.take(plan.trees@.len() as int) =~= plan@);
    }
    out
}

/// The value bound to `k`, in a name-to-text sequence.
pub open spec fn text_map_get(m: Seq<(Seq<char>, Seq<char>)>, k: Seq<char>) -> Option<Seq<char>> {
    let i = crate::kmap::key_index(m.map_values(|e: (Seq<char>, Seq<char>)| e.0), k);
    if i >= 0 {
        Some(m[i].1)
    } else {
        None
    }
}

fn script_lookup(dep: &Dependency, name: &str, out: &mut Vec<(String, String)>)
    ensures
        final(out)@.map_values(|e: (String, String)| (e.0@, e.1@)) == old(out)@.map_values(
            |e: (String, String)| (e.0@, e.1@),
        ) + (match text_map_get(dep@.scripts, name@) {
            Some(cmd) => seq![(name@, cmd)],
            None => Seq::<(Seq<char>, Seq<char>)>::empty(),
        }),
{
    let ghost before = out@.map_values(|e: (String, String)| (e.0@, e.1@));
    proof {
        assert(dep.scripts.keys() =~= dep@.scripts.map_values(
            |e: (Seq<char>, Seq<char>)| e.0,
        ));
    }
    match dep.scripts.get(name) {
        Some(cmd) => {
            let ghost j = crate::kmap::key_index(dep.scripts.keys(), name@);
            proof {
                crate::kmap::lemma_key_index(dep.scripts.keys(), name@);
                assert(dep@.scripts.map_values(|e: (Seq<char>, Seq<char>)| e.0)
                    == dep.scripts.keys());
                assert(dep@.scripts[j] == (
                    dep.scripts.entries@[j].0@,
                    dep.scripts.entries@[j].1@,
                ));
                assert(*cmd == dep.scripts.entries@[j].1);
            }
            out.push((name.to_owned(), cmd.clone()));
            proof {
                assert(out@.map_values(|e: (String, String)| (e.0@, e.1@)) =~= before + seq![
                    (name@, dep@.scripts[j].1),
                ]);
            }
        },
        None => {
            proof {
                assert(out@.map_values(|e: (String, String)| (e.0@, e.1@)) =~= before);
            }
        },
    }
}

/// The install-script commands of a package, in run order.
pub fn script_commands(dep: &Dependency) -> (r: Vec<(String, String)>)
    ensures
        ({
            let m = dep@.scripts;
            r@.map_values(|e: (String, String)| (e.0@, e.1@)) == (match text_map_get(
                m,
                "preinstall"@,
            ) {
                Some(cmd) => seq![("preinstall"@, cmd)],
                None => Seq::<(Seq<char>, Seq<char>)>::empty(),
            }) + (match text_map_get(m, "install"@) {
                Some(cmd) => seq![("install"@, cmd)],
                None => Seq::<(Seq<char>, Seq<char>)>::empty(),
            }) + (match text_map_get(m, "postinstall"@) {
                Some(cmd) => seq![("postinstall"@, cmd)],
                None => Seq::<(Seq<char>, Seq<char>)>::empty(),
            })
        }),
{
    let mut out: Vec<(String, String)> = Vec::new();
    proof {
        assert(out@.map_values(|e: (String, String)| (e.0@, e.1@)) =~= Seq::<
            (Seq<char>, Seq<char>),
        >::empty());
    }
    script_lookup(dep, "preinstall", &mut out);
    script_lookup(dep, "install", &mut out);
    script_lookup(dep, "postinstall", &mut out);
    out
}

/// The shim a bin entry wires: `node_modules/.bin/<command>` points at
/// `../<package>/<path>`, for commands without a separator.
pub open spec fn shim_target(name: Seq<char>, path: Seq<char>) -> Seq<char> {
    "../"@ + name + seq!['/'] + path
}

/// The shims one package contributes: its commands without `/`, each
/// with its relative target.
pub open spec fn spec_bin_links(d: DepV) -> Seq<(Seq<char>, Seq<char>)>
    decreases d.bins.len(),
{
    bins_links_of(d.bins, d.name)
}

pub open spec fn bins_links_of(
    bins: Seq<(Seq<char>, Seq<char>)>,
    name: Seq<char>,
) -> Seq<(Seq<char>, Seq<char>)>
    decreases bins,
{
    if bins.len() == 0 {
        Seq::empty()
    } else {
        let rest = bins_links_of(bins.drop_last(), name);
        if bins.last().0.contains('/') {
            rest
        } else {
            rest.push((bins.last().0, shim_target(name, bins.last().1)))
        }
    }
}

/// The shims a plan's top-level packages contribute, in plan order.
pub fn bin_links(plan: &Plan) -> (r: Vec<(String, String)>)
    ensures
        r@.map_values(|e: (String, String)| (e.0@, e.1@)) == plan_links(plan@),
{
    let mut out: Vec<(String, String)> = Vec::new();
    let mut i: usize = 0;
    proof {
        assert(plan@.take(0) =~= Seq::<(Seq<char>, TreeV)>::empty());
        assert(out@.map_values(|e: (String, String)| (e.0@, e.1@)) =~= plan_links(
            plan@.take(0),
        ));
    }
    while i < plan.trees.len()
        invariant
            i <= plan.trees@.len(),
            plan@.len() == plan.trees@.len(),
            forall|j: int|
                0 <= j < plan.trees@.len() ==> #[trigger] plan@[j] == (
                    plan.trees@[j].0@,
                    tree_view(plan.trees@[j].1),
                ),
            out@.map_values(|e: (String, String)| (e.0@, e.1@)) == plan_links(
                plan@.take(i as int),
            ),
        decreases plan.trees@.len() - i,
    {
        let dep = &plan.trees[i].1.root;
        let ghost dv = dep@;
        let mut b: usize = 0;
        proof {
            assert(dv.bins.take(0) =~= Seq::<(Seq<char>, Seq<char>)>::empty());
        }
        while b < dep.bins.entries.len()
            invariant
                dv == dep@,
                b <= dep.bins.entries@.len(),
                dv.bins.len() == dep.bins.entries@.len(),
                out@.map_values(|e: (String, String)| (e.0@, e.1@)) == plan_links(
                    plan@.take(i as int),
                ) + bins_links_of(dv.bins.take(b as int), dv.name),
            decreases dep.bins.entries@.len() - b,
        {
            let cmd = &dep.bins.entries[b].0;
            let path = &dep.bins.entries[b].1;
            proof {
                assert(dv.bins[b as int] == (cmd@, path@));
                assert(dv.bins.take(b as int + 1).drop_last() =~= dv.bins.take(b as int));
                assert(dv.bins.take(b as int + 1).last() == dv.bins[b as int]);
            }
            let has_sep = crate::strutil::contains_char(cmd.as_str(), '/');
            let ghost outpre = out@.map_values(|e: (String, String)| (e.0@, e.1@));
            proof {
                assert(has_sep == dv.bins[b as int].0.contains('/'));
            }
            if !has_sep {
                let mut target = String::from_str("../");
                target.append(dep.name.as_str());
                target.append("/");
                target.append(path.as_str());
                let ghost tv = target@;
                proof {
                    reveal_strlit("/");
                    reveal_strlit("../");
                    assert("/"@ =~= seq!['/']);
                    assert(tv =~= shim_target(dv.name, path@));
                }
                out.push((cmd.clone(), target));
                proof {
                    assert(out@.map_values(|e: (String, String)| (e.0@, e.1@)) =~= outpre
                        + seq![(cmd@, tv)]);
                }
            }
            proof {
                let step = bins_links_of(dv.bins.take(b as int + 1), dv.name);
                let prevb = bins_links_of(dv.bins.take(b as int), dv.name);
                if dv.bins[b as int].0.contains('/') {
                    assert(step =~= prevb);
                } else {
                    assert(step =~= prevb.push(
                        (dv.bins[b as int].0, shim_target(dv.name, dv.bins[b as int].1)),
                    ));
                }
                assert(out@.map_values(|e: (String, String)| (e.0@, e.1@)) =~= plan_links(
                    plan@.take(i as int),
                ) + step);
            }
            b += 1;
        }
        proof {
            assert(dv.bins.take(dep.bins.entries@.len() as int) =~= dv.bins);
            assert(plan@.take(i as int + 1).drop_last() =~= plan@.take(i as int));
            assert(plan@.take(i as int + 1).last() == plan@[i as int]);
            assert(plan@[i as int].1.root() == dv);
            assert(out@.map_values(|e: (String, String)| (e.0@, e.1@)) =~= plan_links(
                plan@.take(i as int + 1),
            ));
        }
        i += 1;
    }
    proof {
        assert(plan@.take(plan.trees@.len() as int) =~= plan@);
    }
    out
}

/// The shims a forest contributes, in order.
pub open spec fn plan_links(trees: Seq<(Seq<char>, TreeV)>) -> Seq<(Seq<char>, Seq<char>)>
    decreases trees,
{
    if trees.len() == 0 {
        Seq::empty()
    } else {
        plan_links(trees.drop_last()) + bins_links_of(
            trees.last().1.root().bins,
            trees.last().1.root().name,
        )
    }
}

/// The number of packages a forest installs.
pub open spec fn spec_tree_count(trees: Seq<(Seq<char>, TreeV)>) -> nat
    decreases trees,
{
    if trees.len() == 0 {
        0
    } else {
        spec_tree_count(trees.drop_last()) + 1 + spec_tree_count(trees.last().1.children())
    }
}

/// Counts the packages a forest installs, capped at `usize::MAX`.
pub fn tree_size(trees: &Vec<(String, DependencyTree)>) -> (r: usize)
    ensures
        r <= spec_tree_count(
            trees@.map_values(|e: (String, DependencyTree)| (e.0@, e.1@)),
        ),
        spec_tree_count(trees@.map_values(|e: (String, DependencyTree)| (e.0@, e.1@)))
            <= usize::MAX ==> r == spec_tree_count(
            trees@.map_values(|e: (String, DependencyTree)| (e.0@, e.1@)),
        ),
    decreases trees,
{
    let ghost tv = trees@.map_values(|e: (String, DependencyTree)| (e.0@, e.1@));
    let mut total: usize = 0;
    let mut i: usize = 0;
    proof {
        assert(tv.take(0) =~= Seq::<(Seq<char>, TreeV)>::empty());
    }
    while i < trees.len()
        invariant
            tv == trees@.map_values(|e: (String, DependencyTree)| (e.0@, e.1@)),
            i <= trees@.len(),
            total <= spec_tree_count(tv.take(i as int)),
            spec_tree_count(tv.take(i as int)) <= usize::MAX ==> total == spec_tree_count(
                tv.take(i as int),
            ),
        decreases trees@.len() - i,
    {
        let sub = tree_size(&trees[i].1.children);
        proof {
            assert(tv.take(i as int + 1).drop_last() =~= tv.take(i as int));
            assert(tv.take(i as int + 1).last() == tv[i as int]);
            assert(tv[i as int].1.children() =~= trees@[i as int].1.children@.map_values(
                |e: (String, DependencyTree)| (e.0@, e.1@),
            ));
            assert(spec_tree_count(tv.take(i as int + 1)) == spec_tree_count(tv.take(i as int))
                + 1 + spec_tree_count(tv[i as int].1.children()));
        }
        if total < usize::MAX {
            total = total + 1;
        }
        if sub > usize::MAX - total {
            total = usize::MAX;
        } else {
            total = total + sub;
        }
        i += 1;
    }
    proof {
        assert(tv.take(trees@.len() as int) =~= tv);
    }
    total
}

} // verus!
