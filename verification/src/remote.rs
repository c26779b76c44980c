//! # Remote seam
//!
//! What a connector answers: an enumeration, a fetch, a push, each as a
//! payload the verbs read, and the trait a runner services them through.

use crate::change::PimdirChange;
use crate::collection::{PimdirCheckpoint, PimdirCollectionId};
use crate::list::copy_list;
use crate::object::PimdirHash;
use crate::placement::{PimdirFlags, PimdirHandle, PimdirLinkId, PimdirSortKey};
use crate::summary::{PimdirSummary, SummaryView};
use crate::text::{clone_bytes, Text};
use vstd::prelude::*;

verus! {

/// The detail tier a fetch targets.
#[derive(Clone, Copy, Debug, PartialEq, Eq, Structural)]
pub enum PimdirTier {
    /// Summary only: a header or property subset.
    Meta,
    /// The full item body; yields an object.
    Full,
}

/// One row of an enumerate snapshot: handle, flags and content revision.
///
/// Enough to merge without fetching a body. No link id: enumeration only
/// has to yield handles.
#[derive(Debug, PartialEq, Eq)]
pub struct PimdirRemoteItem {
    /// The protocol handle.
    pub handle: PimdirHandle,
    /// The current remote flag set.
    pub flags: PimdirFlags,
    /// The remote content revision (a WebDAV etag) of a mutable body.
    ///
    /// `None` where content is immutable, which the merge reads as
    /// unchanged, never as unknown.
    pub revision: Option<String>,
}

/// What a [`PimdirRemoteItem`] says, by value.
#[verifier::ext_equal]
pub struct RemoteItemView {
    pub handle: Text,
    pub flags: Option<Set<Text>>,
    pub revision: Option<Text>,
}

impl View for PimdirRemoteItem {
    type V = RemoteItemView;

    open spec fn view(&self) -> RemoteItemView {
        RemoteItemView {
            handle: self.handle@,
            flags: self.flags@,
            revision: self.revision.deep_view(),
        }
    }
}

impl DeepView for PimdirRemoteItem {
    type V = RemoteItemView;

    open spec fn deep_view(&self) -> RemoteItemView {
        self@
    }
}

impl Clone for PimdirRemoteItem {
    fn clone(&self) -> (copy: Self)
        ensures
            copy@ == self@,
    {
        PimdirRemoteItem {
            handle: self.handle.clone(),
            flags: self.flags.clone(),
            revision: self.revision.clone(),
        }
    }
}

/// The result of enumerating a collection: its member set and checkpoint.
///
/// A complete snapshot lists every member, so a local placement missing
/// from `items` was deleted upstream. A delta lists only what changed and
/// names removals in `vanished`.
#[derive(Debug, PartialEq, Eq)]
pub struct PimdirRemoteSnapshot {
    /// The members observed: all of them when `complete`, else the delta.
    pub items: Vec<PimdirRemoteItem>,
    /// Handles removed upstream since the cursor, empty when `complete`.
    pub vanished: Vec<PimdirHandle>,
    /// Whether `items` is the whole member set (true) or a delta (false).
    pub complete: bool,
    /// The checkpoint these items are current as of.
    pub checkpoint: PimdirCheckpoint,
}

/// What a [`PimdirRemoteSnapshot`] says, by value.
#[verifier::ext_equal]
pub struct RemoteSnapshotView {
    pub items: Seq<RemoteItemView>,
    pub vanished: Seq<Text>,
    pub complete: bool,
    pub checkpoint: Seq<u8>,
}

impl View for PimdirRemoteSnapshot {
    type V = RemoteSnapshotView;

    open spec fn view(&self) -> RemoteSnapshotView {
        RemoteSnapshotView {
            items: self.items.deep_view(),
            vanished: self.vanished.deep_view(),
            complete: self.complete,
            checkpoint: self.checkpoint@,
        }
    }
}

impl DeepView for PimdirRemoteSnapshot {
    type V = RemoteSnapshotView;

    open spec fn deep_view(&self) -> RemoteSnapshotView {
        self@
    }
}

impl Clone for PimdirRemoteSnapshot {
    fn clone(&self) -> (copy: Self)
        ensures
            copy@ == self@,
    {
        PimdirRemoteSnapshot {
            items: copy_list(&self.items),
            vanished: copy_list(&self.vanished),
            complete: self.complete,
            checkpoint: self.checkpoint.clone(),
        }
    }
}

/// The body a full fetch reports for an item.
///
/// A streaming consumer may persist the body into its blob store itself
/// and report it persisted, so the engine never holds it in memory.
#[derive(Debug, PartialEq, Eq)]
pub enum PimdirFetchedBody {
    /// The body bytes and their content hash, for the engine to store.
    Inline {
        /// Content hash of the bytes.
        hash: PimdirHash,
        /// The body bytes.
        bytes: Vec<u8>,
    },
    /// An object the consumer already persisted, recorded without bytes.
    Persisted {
        /// Content hash of the persisted object.
        hash: PimdirHash,
        /// Size of the persisted object, in bytes.
        size: usize,
    },
}

/// What a [`PimdirFetchedBody`] says, by value.
#[verifier::ext_equal]
pub enum FetchedBodyView {
    Inline { hash: Text, bytes: Seq<u8> },
    Persisted { hash: Text, size: usize },
}

impl View for PimdirFetchedBody {
    type V = FetchedBodyView;

    open spec fn view(&self) -> FetchedBodyView {
        match *self {
            PimdirFetchedBody::Inline { hash, bytes } => FetchedBodyView::Inline {
                hash: hash@,
                bytes: bytes@,
            },
            PimdirFetchedBody::Persisted { hash, size } => FetchedBodyView::Persisted {
                hash: hash@,
                size: size,
            },
        }
    }
}

impl DeepView for PimdirFetchedBody {
    type V = FetchedBodyView;

    open spec fn deep_view(&self) -> FetchedBodyView {
        self@
    }
}

impl Clone for PimdirFetchedBody {
    fn clone(&self) -> (copy: Self)
        ensures
            copy@ == self@,
    {
        match self {
            PimdirFetchedBody::Inline { hash, bytes } => PimdirFetchedBody::Inline {
                hash: hash.clone(),
                bytes: clone_bytes(bytes),
            },
            PimdirFetchedBody::Persisted { hash, size } => PimdirFetchedBody::Persisted {
                hash: hash.clone(),
                size: *size,
            },
        }
    }
}

/// The result of fetching one item at a requested tier.
#[derive(Debug, PartialEq, Eq)]
pub struct PimdirFetchedItem {
    /// The fetched handle.
    pub handle: PimdirHandle,
    /// The resolved link id.
    pub link_id: PimdirLinkId,
    /// The summary and addresses, `None` for a component the format has no
    /// table for.
    pub summary: Option<PimdirSummary>,
    /// The sort key from the same derivation, empty when undefined.
    pub sort_key: PimdirSortKey,
    /// The body; `None` at the summary tier.
    pub body: Option<PimdirFetchedBody>,
    /// The remote revision of the fetched body, `None` when immutable.
    pub revision: Option<String>,
}

/// What a [`PimdirFetchedItem`] says, by value.
#[verifier::ext_equal]
pub struct FetchedItemView {
    pub handle: Text,
    pub link_id: Text,
    pub summary: Option<SummaryView>,
    pub sort_key: Text,
    pub body: Option<FetchedBodyView>,
    pub revision: Option<Text>,
}

impl View for PimdirFetchedItem {
    type V = FetchedItemView;

    open spec fn view(&self) -> FetchedItemView {
        FetchedItemView {
            handle: self.handle@,
            link_id: self.link_id@,
            summary: self.summary.deep_view(),
            sort_key: self.sort_key@,
            body: self.body.deep_view(),
            revision: self.revision.deep_view(),
        }
    }
}

impl DeepView for PimdirFetchedItem {
    type V = FetchedItemView;

    open spec fn deep_view(&self) -> FetchedItemView {
        self@
    }
}

impl Clone for PimdirFetchedItem {
    fn clone(&self) -> (copy: Self)
        ensures
            copy@ == self@,
    {
        PimdirFetchedItem {
            handle: self.handle.clone(),
            link_id: self.link_id.clone(),
            summary: self.summary.clone(),
            sort_key: self.sort_key.clone(),
            body: self.body.clone(),
            revision: self.revision.clone(),
        }
    }
}

/// The outcome of pushing one change.
///
/// Pushes are at-least-once: a remove whose target is already gone is
/// accepted, since rejecting it would keep the tombstone retrying forever.
#[derive(Clone, Copy, Debug, PartialEq, Eq, Structural)]
pub enum PimdirPushOutcome {
    /// The remote accepted the change.
    Accepted,
    /// Optimistic concurrency rejected it: the base was stale.
    Rejected,
}

/// The result of pushing one change.
#[derive(Debug, PartialEq, Eq)]
pub struct PimdirPushResult {
    /// The handle the change targeted (the provisional one for an add).
    pub handle: PimdirHandle,
    /// Whether the remote accepted it.
    pub outcome: PimdirPushOutcome,
    /// The server-assigned handle of an accepted add, `None` otherwise.
    pub assigned: Option<PimdirHandle>,
    /// The revision the remote now holds after an accepted content push.
    pub revision: Option<String>,
}

/// What a [`PimdirPushResult`] says, by value.
#[verifier::ext_equal]
pub struct PushResultView {
    pub handle: Text,
    pub outcome: PimdirPushOutcome,
    pub assigned: Option<Text>,
    pub revision: Option<Text>,
}

impl View for PimdirPushResult {
    type V = PushResultView;

    open spec fn view(&self) -> PushResultView {
        PushResultView {
            handle: self.handle@,
            outcome: self.outcome,
            assigned: self.assigned.deep_view(),
            revision: self.revision.deep_view(),
        }
    }
}

impl DeepView for PimdirPushResult {
    type V = PushResultView;

    open spec fn deep_view(&self) -> PushResultView {
        self@
    }
}

impl Clone for PimdirPushResult {
    fn clone(&self) -> (copy: Self)
        ensures
            copy@ == self@,
    {
        PimdirPushResult {
            handle: self.handle.clone(),
            outcome: self.outcome,
            assigned: self.assigned.clone(),
            revision: self.revision.clone(),
        }
    }
}

/// The connector seam: what a runner asks of IMAP, JMAP or DAV.
pub trait PimdirRemote {
    /// The error this remote raises.
    type Error;

    /// Enumerates the collection: a full set, or a delta from `cursor`.
    fn enumerate(
        &mut self,
        collection: &PimdirCollectionId,
        cursor: Option<PimdirCheckpoint>,
    ) -> Result<PimdirRemoteSnapshot, Self::Error>;

    /// Fetches each handle at the requested tier, results keyed by handle.
    fn fetch(
        &mut self,
        collection: &PimdirCollectionId,
        handles: Vec<PimdirHandle>,
        tier: PimdirTier,
    ) -> Result<Vec<PimdirFetchedItem>, Self::Error>;

    /// Pushes each change, returning an outcome each; pushes are
    /// at-least-once, keyed so a replay is recognised.
    fn push(
        &mut self,
        collection: &PimdirCollectionId,
        changes: Vec<PimdirChange>,
    ) -> Result<Vec<PimdirPushResult>, Self::Error>;
}

} // verus!
