//! # Object
//!
//! The content-addressed item body, stored once and shared by every
//! placement pointing at it.
//!
//! One of the two identity axes, next to the placement. An edit of
//! mutable content is a new object, the old one dereferenced.

use crate::text::Text;
use vstd::prelude::*;

verus! {

/// The content hash naming an object in the object store.
#[derive(Debug, Eq, Ord, PartialOrd, Hash)]
pub struct PimdirHash(pub String);

impl View for PimdirHash {
    type V = Text;

    open spec fn view(&self) -> Text {
        self.0@
    }
}

impl DeepView for PimdirHash {
    type V = Text;

    open spec fn deep_view(&self) -> Text {
        self@
    }
}

impl Clone for PimdirHash {
    fn clone(&self) -> (copy: Self)
        ensures
            copy == *self,
    {
        PimdirHash(self.0.clone())
    }
}

impl PartialEq for PimdirHash {
    fn eq(&self, other: &Self) -> (same: bool) {
        self.0 == other.0
    }
}

impl vstd::std_specs::cmp::PartialEqSpecImpl for PimdirHash {
    open spec fn obeys_eq_spec() -> bool {
        true
    }

    open spec fn eq_spec(&self, other: &Self) -> bool {
        self@ == other@
    }
}

impl From<String> for PimdirHash {
    fn from(id: String) -> (made: Self)
        ensures
            made@ == id@,
    {
        PimdirHash(id)
    }
}

impl vstd::std_specs::convert::FromSpecImpl<String> for PimdirHash {
    open spec fn obeys_from_spec() -> bool {
        true
    }

    open spec fn from_spec(id: String) -> Self {
        PimdirHash(id)
    }
}

impl From<&str> for PimdirHash {
    fn from(id: &str) -> (made: Self)
        ensures
            made@ == id@,
    {
        PimdirHash(id.to_owned())
    }
}

impl vstd::std_specs::convert::FromSpecImpl<&str> for PimdirHash {
    open spec fn obeys_from_spec() -> bool {
        false
    }

    open spec fn from_spec(id: &str) -> Self {
        arbitrary()
    }
}

impl PimdirHash {
    /// Borrows the id as a string slice.
    pub fn as_str(&self) -> (text: &str)
        ensures
            text@ == self@,
    {
        self.0.as_str()
    }
}

/// A stored object: its content hash and byte size.
///
/// The bytes live out of band, refcounted so copy, move and undelete are
/// reference edits.
#[derive(Debug, PartialEq, Eq)]
pub struct PimdirObject {
    /// The content hash naming the bytes.
    pub hash: PimdirHash,
    /// The byte size of the content.
    pub size: usize,
}

/// What a [`PimdirObject`] says, by value.
#[verifier::ext_equal]
pub struct ObjectView {
    pub hash: Text,
    pub size: usize,
}

impl View for PimdirObject {
    type V = ObjectView;

    open spec fn view(&self) -> ObjectView {
        ObjectView {
            hash: self.hash@,
            size: self.size,
        }
    }
}

impl DeepView for PimdirObject {
    type V = ObjectView;

    open spec fn deep_view(&self) -> ObjectView {
        self@
    }
}

impl Clone for PimdirObject {
    fn clone(&self) -> (copy: Self)
        ensures
            copy@ == self@,
    {
        PimdirObject {
            hash: self.hash.clone(),
            size: self.size,
        }
    }
}

} // verus!
