//! The content-addressed store and the installed tree, modelled by
//! their sentinels: a store entry is present exactly when its
//! completion sentinel exists, and an installed directory is current
//! exactly when its install marker exists. Both operations consult
//! the sentinel first, which is what makes a second run a no-op.

use vstd::prelude::*;
use vstd::string::*;
use crate::kmap::KeyMap;
use crate::paths::{
    checked_entry_join, joined_under, spec_entry_walk, split_slash, PathError,
};

verus! {

/// The store's observable state: which entries have their completion
/// sentinel.
#[derive(Debug)]
pub struct StoreModel {
    pub complete: KeyMap<bool>,
}

/// One download transition: an extraction is performed exactly when
/// the sentinel was absent, and afterwards the sentinel exists; other
/// entries are untouched.
pub open spec fn download_step(
    pre: StoreModel,
    post: StoreModel,
    id: Seq<char>,
    extracted: bool,
) -> bool {
    &&& extracted == !pre.complete.spec_contains(id)
    &&& post.complete.spec_contains(id)
    &&& (forall|k: Seq<char>|
        k != id ==> post.complete.spec_contains(k) == pre.complete.spec_contains(k))
}

impl StoreModel {
    pub fn new() -> (r: StoreModel)
        ensures
            r.complete.wf(),
            forall|k: Seq<char>| !r.complete.spec_contains(k),
    {
        let r = StoreModel { complete: KeyMap::new() };
        proof {
            assert forall|k: Seq<char>| !r.complete.spec_contains(k) by {
                crate::kmap::lemma_key_index(r.complete.keys(), k);
            }
        }
        r
    }

    /// Whether the entry's completion sentinel exists.
    pub fn is_complete(&self, id: &str) -> (r: bool)
        ensures
            r == self.complete.spec_contains(id@),
    {
        self.complete.contains_key(id)
    }

    /// Brings an entry into the store: skipped when the sentinel
    /// already exists, extracted and then marked complete otherwise.
    pub fn download(&mut self, id: &str) -> (extracted: bool)
        requires
            old(self).complete.wf(),
        ensures
            final(self).complete.wf(),
            download_step(*old(self), *final(self), id@, extracted),
    {
        if self.complete.contains_key(id) {
            false
        } else {
            self.complete.insert(id.to_owned(), true);
            proof {
                assert forall|k: Seq<char>|
                    k != id@ implies self.complete.spec_contains(k) == old(
                    self,
                ).complete.spec_contains(k) by {
                    assert(self.complete.spec_get(k) == old(self).complete.spec_get(k));
                }
            }
            true
        }
    }
}

/// Store idempotence: across two consecutive downloads of the same
/// entry, the second never extracts; starting from an absent entry,
/// exactly the first extracts.
pub proof fn theorem_store_idempotence(
    s0: StoreModel,
    s1: StoreModel,
    s2: StoreModel,
    id: Seq<char>,
    e1: bool,
    e2: bool,
)
    requires
        download_step(s0, s1, id, e1),
        download_step(s1, s2, id, e2),
    ensures
        !e2,
        e1 == !s0.complete.spec_contains(id),
{
}

/// The installed tree's observable state: which install markers
/// exist.
#[derive(Debug)]
pub struct InstallModel {
    pub markers: KeyMap<bool>,
}

/// One install transition, keyed by the marker path: filesystem
/// writes happen exactly when the marker was absent, and afterwards
/// the marker exists; other targets are untouched.
pub open spec fn install_step(
    pre: InstallModel,
    post: InstallModel,
    marker: Seq<char>,
    wrote: bool,
) -> bool {
    &&& wrote == !pre.markers.spec_contains(marker)
    &&& post.markers.spec_contains(marker)
    &&& (forall|k: Seq<char>|
        k != marker ==> post.markers.spec_contains(k) == pre.markers.spec_contains(k))
}

impl InstallModel {
    pub fn new() -> (r: InstallModel)
        ensures
            r.markers.wf(),
            forall|k: Seq<char>| !r.markers.spec_contains(k),
    {
        let r = InstallModel { markers: KeyMap::new() };
        proof {
            assert forall|k: Seq<char>| !r.markers.spec_contains(k) by {
                crate::kmap::lemma_key_index(r.markers.keys(), k);
            }
        }
        r
    }

    /// Whether the install marker exists.
    pub fn is_installed(&self, marker: &str) -> (r: bool)
        ensures
            r == self.markers.spec_contains(marker@),
    {
        self.markers.contains_key(marker)
    }

    /// Materializes one package: skipped when its marker already
    /// exists, written and then marked otherwise.
    pub fn install(&mut self, marker: &str) -> (wrote: bool)
        requires
            old(self).markers.wf(),
        ensures
            final(self).markers.wf(),
            install_step(*old(self), *final(self), marker@, wrote),
    {
        if self.markers.contains_key(marker) {
            false
        } else {
            self.markers.insert(marker.to_owned(), true);
            proof {
                assert forall|k: Seq<char>|
                    k != marker@ implies self.markers.spec_contains(k) == old(
                    self,
                ).markers.spec_contains(k) by {
                    assert(self.markers.spec_get(k) == old(self).markers.spec_get(k));
                }
            }
            true
        }
    }
}

/// Install idempotence: a second install of the same target performs
/// no filesystem writes.
pub proof fn theorem_install_idempotence(
    s0: InstallModel,
    s1: InstallModel,
    s2: InstallModel,
    marker: Seq<char>,
    w1: bool,
    w2: bool,
)
    requires
        install_step(s0, s1, marker, w1),
        install_step(s1, s2, marker, w2),
    ensures
        !w2,
{
}

/// The install marker's file name: `.installed!` followed by the
/// store key.
pub fn install_marker_name(id: &str) -> (r: String)
    ensures
        r@ == ".installed!"@ + id@,
{
    let mut r = String::from_str(".installed!");
    r.append(id);
    proof {
        assert(r@ =~= ".installed!"@ + id@);
    }
    r
}

/// Rebases every archive entry under the extraction target before
/// anything is written: one escaping entry fails the whole
/// extraction, and nothing lands outside the target.
pub fn plan_extraction(target: &str, entries: &Vec<String>) -> (r: Result<
    Vec<String>,
    PathError,
>)
    ensures
        match r {
            Ok(paths) => paths@.len() == entries@.len() && (forall|j: int|
                0 <= j < entries@.len() ==> (spec_entry_walk(
                    split_slash((#[trigger] entries@[j])@),
                ) matches Some(out) && paths@[j]@ == joined_under(target@, out))),
            Err(e) => e matches PathError::PathEscape { .. } && (exists|j: int|
                0 <= j < entries@.len() && spec_entry_walk(
                    split_slash((#[trigger] entries@[j])@),
                ) is None),
        },
{
    let mut paths: Vec<String> = Vec::new();
    let mut i: usize = 0;
    while i < entries.len()
        invariant
            i <= entries@.len(),
            paths@.len() == i,
            forall|j: int|
                0 <= j < i ==> (spec_entry_walk(split_slash((#[trigger] entries@[j])@)) matches Some(
                    out,
                ) && paths@[j]@ == joined_under(target@, out)),
        decreases entries@.len() - i,
    {
        match checked_entry_join(target, entries[i].as_str()) {
            Ok(p) => {
                paths.push(p);
            },
            Err(e) => {
                return Err(e);
            },
        }
        i += 1;
    }
    Ok(paths)
}

} // verus!
