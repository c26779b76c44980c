//! # Storage seam
//!
//! Payloads the storage seam returns to a read, symmetric to the remote
//! seam. Writes travel the other way as write operations.

use crate::collection::PimdirCheckpoint;
use crate::list::copy_list;
use crate::placement::{PimdirHandle, PimdirLinkId, PimdirPlacement, PlacementView};
use crate::text::Text;
use vstd::prelude::*;

verus! {

/// Which of a collection's placements a load has to return.
///
/// A floor, not a ceiling: a storage returns at least the named
/// placements and may return the whole collection.
#[derive(Debug, PartialEq, Eq)]
pub enum PimdirLoadScope {
    /// Every placement of the collection.
    All,
    /// The placements holding these handles.
    Handles(Vec<PimdirHandle>),
    /// Every placement holding one of these link ids, however many rows.
    Links(Vec<PimdirLinkId>),
}

/// What a [`PimdirLoadScope`] says, by value.
#[verifier::ext_equal]
pub enum LoadScopeView {
    All,
    Handles(Seq<Text>),
    Links(Seq<Text>),
}

impl View for PimdirLoadScope {
    type V = LoadScopeView;

    open spec fn view(&self) -> LoadScopeView {
        match *self {
            PimdirLoadScope::All => LoadScopeView::All,
            PimdirLoadScope::Handles(a) => LoadScopeView::Handles(a.deep_view()),
            PimdirLoadScope::Links(a) => LoadScopeView::Links(a.deep_view()),
        }
    }
}

impl DeepView for PimdirLoadScope {
    type V = LoadScopeView;

    open spec fn deep_view(&self) -> LoadScopeView {
        self@
    }
}

impl Clone for PimdirLoadScope {
    fn clone(&self) -> (copy: Self)
        ensures
            copy@ == self@,
    {
        match self {
            PimdirLoadScope::All => PimdirLoadScope::All,
            PimdirLoadScope::Handles(a) => PimdirLoadScope::Handles(copy_list(a)),
            PimdirLoadScope::Links(a) => PimdirLoadScope::Links(copy_list(a)),
        }
    }
}

/// A loaded collection: its placements and its last checkpoint.
#[derive(Debug, PartialEq, Eq)]
pub struct PimdirLoaded {
    /// Every placement currently stored for the collection.
    pub placements: Vec<PimdirPlacement>,
    /// The last sync checkpoint, if ever synced.
    pub checkpoint: Option<PimdirCheckpoint>,
}

/// What a [`PimdirLoaded`] says, by value.
#[verifier::ext_equal]
pub struct LoadedView {
    pub placements: Seq<PlacementView>,
    pub checkpoint: Option<Seq<u8>>,
}

impl View for PimdirLoaded {
    type V = LoadedView;

    open spec fn view(&self) -> LoadedView {
        LoadedView {
            placements: self.placements.deep_view(),
            checkpoint: self.checkpoint.deep_view(),
        }
    }
}

impl DeepView for PimdirLoaded {
    type V = LoadedView;

    open spec fn deep_view(&self) -> LoadedView {
        self@
    }
}

impl Clone for PimdirLoaded {
    fn clone(&self) -> (copy: Self)
        ensures
            copy@ == self@,
    {
        PimdirLoaded {
            placements: copy_list(&self.placements),
            checkpoint: self.checkpoint.clone(),
        }
    }
}

impl Default for PimdirLoaded {
    fn default() -> (made: Self)
        ensures
            made@ == (LoadedView {
                placements: Seq::<PlacementView>::empty(),
                checkpoint: None,
            }),
    {
        let made = PimdirLoaded { placements: Vec::new(), checkpoint: None };
        assert(made@.placements =~= Seq::<PlacementView>::empty());
        made
    }
}

} // verus!
