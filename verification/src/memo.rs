//! The memoization table behind the concurrent caches: one slot per
//! key, claimed before the loader runs and fulfilled exactly once.
//! Only the caller whose claim started the slot runs the loader, a
//! fulfilled slot is never overwritten, so every waiter observes the
//! one stored value.

use vstd::prelude::*;
use vstd::string::*;
use crate::kmap::KeyMap;

verus! {

/// One slot: a loader is running, or its value has arrived.
#[derive(Debug)]
pub enum MemoEntry<V> {
    InFlight,
    Done(V),
}

/// The memoization table.
#[derive(Debug)]
pub struct MemoTable<V> {
    pub slots: KeyMap<MemoEntry<V>>,
}

/// What a claim observed.
#[derive(Debug, PartialEq, Eq, Structural)]
pub enum ClaimOutcome {
    /// The key was free; the caller now owns the loader run.
    Started,
    /// Another caller's loader is in flight.
    Wait,
    /// The value is already there.
    Ready,
}

/// One claim transition: `Started` exactly when the key was absent —
/// and then the slot is reserved — with every present slot left
/// untouched.
pub open spec fn claim_step<V>(
    pre: MemoTable<V>,
    post: MemoTable<V>,
    key: Seq<char>,
    r: ClaimOutcome,
) -> bool {
    &&& (r is Started) == !pre.slots.spec_contains(key)
    &&& post.slots.spec_contains(key)
    &&& (r is Started ==> post.slots.spec_get(key) == Some(MemoEntry::<V>::InFlight))
    &&& (!(r is Started) ==> post.slots.spec_get(key) == pre.slots.spec_get(key))
    &&& ((r is Wait) == pre.slots.spec_get(key) matches Some(MemoEntry::<V>::InFlight))
    &&& ((r is Ready) == pre.slots.spec_get(key) matches Some(MemoEntry::<V>::Done(_)))
    &&& (forall|k: Seq<char>|
        k != key ==> post.slots.spec_get(k) == pre.slots.spec_get(k))
}

impl<V> MemoTable<V> {
    pub fn new() -> (r: MemoTable<V>)
        ensures
            r.slots.wf(),
            forall|k: Seq<char>| !r.slots.spec_contains(k),
    {
        let r = MemoTable { slots: KeyMap::new() };
        proof {
            assert forall|k: Seq<char>| !r.slots.spec_contains(k) by {
                crate::kmap::lemma_key_index(r.slots.keys(), k);
            }
        }
        r
    }

    /// Claims the slot for `key`: the caller must run the loader only
    /// on `Started`.
    pub fn claim(&mut self, key: &str) -> (r: ClaimOutcome)
        requires
            old(self).slots.wf(),
        ensures
            final(self).slots.wf(),
            claim_step(*old(self), *final(self), key@, r),
    {
        let existing = self.slots.get(key);
        match existing {
            None => {
                self.slots.insert(key.to_owned(), MemoEntry::InFlight);
                ClaimOutcome::Started
            },
            Some(MemoEntry::InFlight) => ClaimOutcome::Wait,
            Some(MemoEntry::Done(_)) => ClaimOutcome::Ready,
        }
    }

    /// Stores the loader's value; only the claimer that started the
    /// slot may do this, and only once.
    pub fn fulfill(&mut self, key: &str, v: V)
        requires
            old(self).slots.wf(),
            old(self).slots.spec_get(key@) == Some(MemoEntry::<V>::InFlight),
        ensures
            final(self).slots.wf(),
            final(self).slots.spec_get(key@) == Some(MemoEntry::Done(v)),
            forall|k: Seq<char>|
                k != key@ ==> final(self).slots.spec_get(k) == old(self).slots.spec_get(k),
    {
        self.slots.insert(key.to_owned(), MemoEntry::Done(v));
    }

    /// Reads the stored value, if the loader has finished.
    pub fn lookup(&self, key: &str) -> (r: Option<&V>)
        ensures
            match r {
                Some(v) => self.slots.spec_get(key@) == Some(MemoEntry::Done(*v)),
                None => !(self.slots.spec_get(key@) matches Some(MemoEntry::Done(_))),
            },
    {
        match self.slots.get(key) {
            Some(MemoEntry::Done(v)) => Some(v),
            _ => None,
        }
    }
}

/// Cache uniqueness, first half: across any two claims of one key,
/// at most the first starts the loader — however many claims follow,
/// the slot is already reserved.
pub proof fn theorem_loader_runs_at_most_once<V>(
    t0: MemoTable<V>,
    t1: MemoTable<V>,
    t2: MemoTable<V>,
    key: Seq<char>,
    r1: ClaimOutcome,
    r2: ClaimOutcome,
)
    requires
        claim_step(t0, t1, key, r1),
        claim_step(t1, t2, key, r2),
    ensures
        !(r2 is Started),
{
}

/// Cache uniqueness, second half: once a value is stored, any later
/// claim leaves it in place and reports it ready, so every waiter
/// observes the same value.
pub proof fn theorem_waiters_see_one_value<V>(
    t0: MemoTable<V>,
    t1: MemoTable<V>,
    key: Seq<char>,
    v: V,
    r: ClaimOutcome,
)
    requires
        t0.slots.spec_get(key) == Some(MemoEntry::Done(v)),
        claim_step(t0, t1, key, r),
    ensures
        r is Ready,
        t1.slots.spec_get(key) == Some(MemoEntry::Done(v)),
{
}

} // verus!
