//! # Collection
//!
//! A mailbox, address book or calendar: the id every verb is scoped to,
//! and the opaque sync token round-tripped between the two seams.

use crate::text::{clone_bytes, Text};
use vstd::prelude::*;

verus! {

/// The account-scoped identity of a collection.
#[derive(Debug, Eq, Ord, PartialOrd, Hash)]
pub struct PimdirCollectionId(pub String);

impl View for PimdirCollectionId {
    type V = Text;

    open spec fn view(&self) -> Text {
        self.0@
    }
}

impl DeepView for PimdirCollectionId {
    type V = Text;

    open spec fn deep_view(&self) -> Text {
        self@
    }
}

impl Clone for PimdirCollectionId {
    fn clone(&self) -> (copy: Self)
        ensures
            copy == *self,
    {
        PimdirCollectionId(self.0.clone())
    }
}

impl PartialEq for PimdirCollectionId {
    fn eq(&self, other: &Self) -> (same: bool) {
        self.0 == other.0
    }
}

impl vstd::std_specs::cmp::PartialEqSpecImpl for PimdirCollectionId {
    open spec fn obeys_eq_spec() -> bool {
        true
    }

    open spec fn eq_spec(&self, other: &Self) -> bool {
        self@ == other@
    }
}

impl From<String> for PimdirCollectionId {
    fn from(id: String) -> (made: Self)
        ensures
            made@ == id@,
    {
        PimdirCollectionId(id)
    }
}

impl vstd::std_specs::convert::FromSpecImpl<String> for PimdirCollectionId {
    open spec fn obeys_from_spec() -> bool {
        true
    }

    open spec fn from_spec(id: String) -> Self {
        PimdirCollectionId(id)
    }
}

impl From<&str> for PimdirCollectionId {
    fn from(id: &str) -> (made: Self)
        ensures
            made@ == id@,
    {
        PimdirCollectionId(id.to_owned())
    }
}

impl vstd::std_specs::convert::FromSpecImpl<&str> for PimdirCollectionId {
    open spec fn obeys_from_spec() -> bool {
        false
    }

    open spec fn from_spec(id: &str) -> Self {
        arbitrary()
    }
}

impl PimdirCollectionId {
    /// Borrows the id as a string slice.
    pub fn as_str(&self) -> (text: &str)
        ensures
            text@ == self@,
    {
        self.0.as_str()
    }
}

/// An opaque per-collection sync token.
///
/// Never inspected by the engine, only round-tripped between the two
/// seams.
#[derive(Debug, PartialEq, Eq)]
pub struct PimdirCheckpoint(pub Vec<u8>);

impl View for PimdirCheckpoint {
    type V = Seq<u8>;

    open spec fn view(&self) -> Seq<u8> {
        self.0@
    }
}

impl DeepView for PimdirCheckpoint {
    type V = Seq<u8>;

    open spec fn deep_view(&self) -> Seq<u8> {
        self@
    }
}

impl Clone for PimdirCheckpoint {
    fn clone(&self) -> (copy: Self)
        ensures
            copy@ == self@,
    {
        PimdirCheckpoint(clone_bytes(&self.0))
    }
}

impl Default for PimdirCheckpoint {
    fn default() -> (made: Self)
        ensures
            made@ == Seq::<u8>::empty(),
    {
        PimdirCheckpoint(Vec::new())
    }
}

} // verus!
