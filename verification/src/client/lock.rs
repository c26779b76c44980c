//! # Owner locks
//!
//! The owner locks this process holds, by store directory. The rule is
//! about processes and an advisory lock is about open file descriptions, so
//! a second handle in the same process shares the lock the first one took
//! instead of contending with itself.
//!
//! The registry counts the handles sharing each description, so the release
//! and the next acquisition are one decision, and the only acquisition that
//! opens a file is one finding no entry at all.

use crate::text::Text;
use crate::text_map::TextMap;
use vstd::prelude::*;
use vstd::string::*;

verus! {

/// A count of handles.
#[derive(Clone, Copy, Debug, PartialEq, Eq)]
pub struct PimdirHandles(pub usize);

impl View for PimdirHandles {
    type V = nat;

    open spec fn view(&self) -> nat {
        self.0 as nat
    }
}

/// The owner locks a process holds and the handles sharing each.
pub struct PimdirOwners {
    handles: TextMap<PimdirHandles>,
}

impl View for PimdirOwners {
    type V = Map<Text, nat>;

    closed spec fn view(&self) -> Map<Text, nat> {
        self.handles@
    }
}

/// How many handles share a store's lock.
pub open spec fn sharing(owners: Map<Text, nat>, store: Text) -> nat {
    if owners.dom().contains(store) {
        owners[store]
    } else {
        0
    }
}

/// The locks held after one more handle takes a store's.
pub open spec fn taken(owners: Map<Text, nat>, store: Text) -> Map<Text, nat> {
    owners.insert(store, sharing(owners, store) + 1)
}

/// The locks held after a handle lets a store's go: the last one releases
/// it.
pub open spec fn let_go(owners: Map<Text, nat>, store: Text) -> Map<Text, nat> {
    if sharing(owners, store) > 1 {
        owners.insert(store, (owners[store] - 1) as nat)
    } else {
        owners.remove(store)
    }
}

impl PimdirOwners {
    /// A process that owns no store.
    pub fn new() -> (owners: Self)
        ensures
            owners@ == Map::<Text, nat>::empty(),
    {
        PimdirOwners { handles: TextMap::new() }
    }

    /// Whether this process already owns a store, so a handle shares its
    /// lock rather than opening the file.
    pub fn owns(&self, store: &str) -> (yes: bool)
        ensures
            yes == self@.dom().contains(store@),
    {
        self.handles.contains_key(store)
    }

    /// How many handles of this process share a store's lock.
    pub fn handles(&self, store: &str) -> (count: usize)
        ensures
            count == sharing(self@, store@),
    {
        match self.handles.get(store) {
            Some(held) => held.0,
            None => 0,
        }
    }

    /// Counts one more handle on a store's lock.
    pub fn take(&mut self, store: &str)
        requires
            sharing(old(self)@, store@) < usize::MAX,
        ensures
            final(self)@ == taken(old(self)@, store@),
    {
        let count: usize = self.handles(store);
        self.handles.insert(store.to_owned(), PimdirHandles(count + 1));
    }

    /// Lets one handle go, telling whether it was the last, which closes
    /// the file. A store this process does not own is left alone.
    pub fn release(&mut self, store: &str) -> (last: bool)
        ensures
            final(self)@ == let_go(old(self)@, store@),
            last == (sharing(old(self)@, store@) <= 1 && old(self)@.dom().contains(store@)),
    {
        let ghost before = self@;
        let count: usize = match self.handles.get(store) {
            Some(held) => held.0,
            None => {
                assert(self@ =~= before.remove(store@));
                return false;
            },
        };
        if count > 1 {
            self.handles.insert(store.to_owned(), PimdirHandles(count - 1));
            false
        } else {
            let _ = self.handles.remove(store);
            true
        }
    }
}

/// Handing the owner role over inside one process is never refused: a
/// handle let go right after it was taken leaves the locks as they were,
/// so the next one finds the store either shared or free.
pub proof fn lemma_a_handover_leaves_the_locks_as_they_were(owners: Map<Text, nat>, store: Text)
    requires
        owners.dom().contains(store) ==> owners[store] > 0,
    ensures
        let_go(taken(owners, store), store) == owners,
{
    assert(let_go(taken(owners, store), store) =~= owners);
}

} // verus!
