//! # Coroutine contract
//!
//! The generator-shape contract every verb implements, with a yield, a
//! return and a two-variant state.
//!
//! Every verb yields the standard effects, remote (enumerate, fetch, push)
//! and storage (load, lookup object, write) alike. A consumer services
//! each yield and resumes with the matching argument.

use crate::change::{ChangeView, PimdirChange, PimdirWriteOp, WriteOpView};
use crate::collection::{PimdirCheckpoint, PimdirCollectionId};
use crate::list::copy_list;
use crate::load::{LoadScopeView, LoadedView, PimdirLoadScope, PimdirLoaded};
use crate::object::PimdirHash;
use crate::placement::{PimdirHandle, PimdirLinkId};
use crate::remote::{
    FetchedItemView, PimdirFetchedItem, PimdirPushResult, PimdirRemoteSnapshot, PimdirTier,
    PushResultView, RemoteSnapshotView,
};
use crate::text::Text;
use crate::text_map::{lemma_same_entries, TextMap};
use vstd::string::*;
use vstd::prelude::*;

verus! {

/// State yielded by a coroutine step.
#[derive(Debug)]
pub enum PimdirCoroutineState<Y, R> {
    /// Intermediate yield: the caller reacts to `Y` and resumes.
    Yielded(Y),
    /// Terminal yield. By convention a `Result`.
    Complete(R),
}

/// A caller that broke the coroutine contract.
#[derive(Clone, Copy, Debug, PartialEq, Eq, Structural)]
pub enum PimdirArgError {
    /// An arg not matching the pending yield, or a resume after completion.
    UnexpectedArg,
    /// The caller resumed without the arg the pending yield required.
    MissingArg,
}

impl PimdirArgError {
    /// The message a log shows.
    pub open spec fn says(self) -> Text {
        match self {
            PimdirArgError::UnexpectedArg => "Pimdir coroutine failed: unexpected arg"@,
            PimdirArgError::MissingArg => "Pimdir coroutine failed: missing arg"@,
        }
    }

    /// The message a log shows.
    pub fn message(&self) -> (text: String)
        ensures
            text@ == self.says(),
    {
        match self {
            PimdirArgError::UnexpectedArg => "Pimdir coroutine failed: unexpected arg".to_owned(),
            PimdirArgError::MissingArg => "Pimdir coroutine failed: missing arg".to_owned(),
        }
    }
}

/// What a resume that does not fit the pending yield is told: an argument
/// nobody asked for, or a resume after completion, is unexpected; no
/// argument where one was asked for is missing.
pub open spec fn misfit<A>(done: bool, arg: Option<A>) -> PimdirArgError {
    if done || arg is Some {
        PimdirArgError::UnexpectedArg
    } else {
        PimdirArgError::MissingArg
    }
}

/// The error of a resume that does not fit the pending yield.
pub fn misfit_of(done: bool, arg: &Option<PimdirArg>) -> (error: PimdirArgError)
    ensures
        error == misfit(done, arg.deep_view()),
{
    if done || arg.is_some() {
        PimdirArgError::UnexpectedArg
    } else {
        PimdirArgError::MissingArg
    }
}

/// Standard-shape offline coroutine.
///
/// Implementors own their state machine and declare their terminal
/// return. The caller reacts to each yield and resumes until complete.
pub trait PimdirCoroutine {
    /// The value yielded on every step.
    type Yield;

    /// Terminal value.
    type Return;

    /// Advances one step, with the arg matching the previous yield, `None`
    /// on the initial call only.
    fn resume(&mut self, arg: Option<PimdirArg>) -> PimdirCoroutineState<Self::Yield, Self::Return>;
}

/// Standard offline yield.
///
/// Each variant is paired with the argument the caller feeds back on the
/// next resume.
#[derive(Debug)]
pub enum PimdirYield {
    /// Enumerate the remote collection.
    WantsEnumerate {
        /// The collection to enumerate.
        collection: PimdirCollectionId,
        /// The last checkpoint to delta from, if any.
        cursor: Option<PimdirCheckpoint>,
    },
    /// Fetch each handle at `tier`.
    WantsFetch {
        /// The owning collection.
        collection: PimdirCollectionId,
        /// The handles to fetch.
        handles: Vec<PimdirHandle>,
        /// The detail tier.
        tier: PimdirTier,
    },
    /// Push each change.
    WantsPush {
        /// The owning collection.
        collection: PimdirCollectionId,
        /// The changes to push.
        changes: Vec<PimdirChange>,
    },
    /// Load the collection from storage.
    WantsLoad {
        /// The collection to read.
        collection: PimdirCollectionId,
        /// Which of its placements are needed.
        scope: PimdirLoadScope,
    },
    /// Resolve stored objects by link id.
    ///
    /// The dedup check skipping the download of a body another collection
    /// already holds.
    WantsLookupObject(Vec<PimdirLinkId>),
    /// Apply the writes atomically.
    WantsWrite(Vec<PimdirWriteOp>),
}

/// What a [`PimdirYield`] says, by value.
#[verifier::ext_equal]
pub enum YieldView {
    WantsEnumerate { collection: Text, cursor: Option<Seq<u8>> },
    WantsFetch { collection: Text, handles: Seq<Text>, tier: PimdirTier },
    WantsPush { collection: Text, changes: Seq<ChangeView> },
    WantsLoad { collection: Text, scope: LoadScopeView },
    WantsLookupObject(Seq<Text>),
    WantsWrite(Seq<WriteOpView>),
}

impl View for PimdirYield {
    type V = YieldView;

    open spec fn view(&self) -> YieldView {
        match *self {
            PimdirYield::WantsEnumerate { collection, cursor } => YieldView::WantsEnumerate {
                collection: collection@,
                cursor: cursor.deep_view(),
            },
            PimdirYield::WantsFetch { collection, handles, tier } => YieldView::WantsFetch {
                collection: collection@,
                handles: handles.deep_view(),
                tier: tier,
            },
            PimdirYield::WantsPush { collection, changes } => YieldView::WantsPush {
                collection: collection@,
                changes: changes.deep_view(),
            },
            PimdirYield::WantsLoad { collection, scope } => YieldView::WantsLoad {
                collection: collection@,
                scope: scope@,
            },
            PimdirYield::WantsLookupObject(a) => YieldView::WantsLookupObject(a.deep_view()),
            PimdirYield::WantsWrite(a) => YieldView::WantsWrite(a.deep_view()),
        }
    }
}

impl DeepView for PimdirYield {
    type V = YieldView;

    open spec fn deep_view(&self) -> YieldView {
        self@
    }
}

/// Reply fed back into a coroutine by the caller.
///
/// Each variant matches the corresponding request and carries the value
/// the caller gathered while servicing it.
#[derive(Debug)]
pub enum PimdirArg {
    /// Reply to an enumeration.
    Enumerate(PimdirRemoteSnapshot),
    /// Reply to a fetch.
    Fetch(Vec<PimdirFetchedItem>),
    /// Reply to a push.
    Push(Vec<PimdirPushResult>),
    /// Reply to a load.
    Load(PimdirLoaded),
    /// Reply to an object lookup, the link ids found.
    LookupObject(TextMap<PimdirHash>),
    /// Reply to a write.
    Write,
}

/// What a [`PimdirArg`] says, by value.
#[verifier::ext_equal]
pub enum ArgView {
    Enumerate(RemoteSnapshotView),
    Fetch(Seq<FetchedItemView>),
    Push(Seq<PushResultView>),
    Load(LoadedView),
    LookupObject(Map<Text, Text>),
    Write,
}

impl View for PimdirArg {
    type V = ArgView;

    open spec fn view(&self) -> ArgView {
        match *self {
            PimdirArg::Enumerate(a) => ArgView::Enumerate(a@),
            PimdirArg::Fetch(a) => ArgView::Fetch(a.deep_view()),
            PimdirArg::Push(a) => ArgView::Push(a.deep_view()),
            PimdirArg::Load(a) => ArgView::Load(a@),
            PimdirArg::LookupObject(a) => ArgView::LookupObject(a@),
            PimdirArg::Write => ArgView::Write,
        }
    }
}

impl DeepView for PimdirArg {
    type V = ArgView;

    open spec fn deep_view(&self) -> ArgView {
        self@
    }
}

impl Clone for PimdirArg {
    fn clone(&self) -> (copy: Self)
        ensures
            copy@ == self@,
    {
        match self {
            PimdirArg::Enumerate(snapshot) => PimdirArg::Enumerate(snapshot.clone()),
            PimdirArg::Fetch(items) => PimdirArg::Fetch(copy_list(items)),
            PimdirArg::Push(results) => PimdirArg::Push(copy_list(results)),
            PimdirArg::Load(loaded) => PimdirArg::Load(loaded.clone()),
            PimdirArg::LookupObject(found) => {
                let copy = found.clone();
                proof {
                    lemma_same_entries(*found, copy);
                }
                PimdirArg::LookupObject(copy)
            },
            PimdirArg::Write => PimdirArg::Write,
        }
    }
}

} // verus!
