//! # Local mutation
//!
//! I/O-free coroutine applying one edit to a collection offline: it loads
//! the target placement, changes it in memory and writes it back.
//!
//! The base stays untouched so the next sync derives the pending push. A
//! resolution is the exception: its base becomes the remote state the
//! conflict recorded, revision and body, so the resolving push is
//! conditioned on what the remote holds.
//!
//! A copy or a move carries an identity into another collection and reads
//! that collection first: a collection holds one key once, so a target
//! already holding the identity gives the create a minted key instead.

use crate::change::{PimdirWriteOp, WriteOpView};
use crate::collection::PimdirCollectionId;
use crate::coroutine::{
    misfit, misfit_of, ArgView, PimdirArg, PimdirArgError, PimdirCoroutine, PimdirCoroutineState,
    PimdirYield, YieldView,
};
use crate::list::push_to;
use crate::load::{LoadScopeView, LoadedView, PimdirLoadScope, PimdirLoaded};
use crate::object::{ObjectView, PimdirObject};
use crate::placement::{
    claimed_key, minted_key, BaseView, OriginView, PimdirBase, PimdirFlags, PimdirHandle,
    PimdirLevel, PimdirLinkId, PimdirOrigin, PimdirPlacement, PimdirSortKey, PimdirStatus,
    PlacementView,
};
use crate::summary::{PimdirSummary, SummaryView};
use crate::text::{clone_bytes, Text};
use crate::text_map::TextSet;
use vstd::prelude::*;
use vstd::string::*;

verus! {

/// A local edit applied offline.
///
/// Each mutation reads one source placement in the coroutine's collection
/// and stages the resulting writes, to be reconciled on the next sync.
#[allow(inconsistent_fields)]
#[derive(Debug, PartialEq, Eq)]
pub enum PimdirMutation {
    /// Replace a placement's flag set.
    ///
    /// The change rides along with whatever else is pending: a create stays
    /// a create, a conflict stays one, a tombstone stays deleted.
    SetFlags {
        /// The placement to update.
        handle: PimdirHandle,
        /// The new flag set.
        flags: PimdirFlags,
    },
    /// Mark a placement deleted, keeping it as a tombstone until synced.
    Remove(PimdirHandle),
    /// Replace a placement's body with locally edited content.
    ///
    /// The new object is stored, the placement repointed at it and marked
    /// dirty, its base keeping the synced body so the next sync derives the
    /// push. Editing a conflict resolves it, a tombstone is revived.
    Edit {
        /// The placement to update.
        handle: PimdirHandle,
        /// The new body's object metadata.
        object: PimdirObject,
        /// The new body bytes.
        body: Vec<u8>,
        /// The refreshed summary, if derived; `None` keeps the stored one.
        summary: Option<PimdirSummary>,
        /// The refreshed sort key, on the same terms as `summary`.
        sort_key: Option<PimdirSortKey>,
    },
    /// Copy a placement into `target` as a pending create; the source is kept.
    ///
    /// The copy takes the source's identity where `target` has it free, and a
    /// minted one where a live placement there already holds it.
    Copy {
        /// The source placement to copy.
        handle: PimdirHandle,
        /// The collection to copy it into.
        target: PimdirCollectionId,
        /// The provisional handle the copy is staged under in `target`.
        placeholder: PimdirHandle,
    },
    /// Move a placement into `target`: a create there, a tombstone here.
    Move {
        /// The source placement to move.
        handle: PimdirHandle,
        /// The collection to move it into.
        target: PimdirCollectionId,
        /// The provisional handle the move is staged under in `target`.
        placeholder: PimdirHandle,
    },
    /// Create a locally-authored item with no remote origin (compose, import).
    ///
    /// Stages a pending create the next sync pushes as an append, uploading
    /// the body. Reads no existing source.
    Add {
        /// The provisional handle, rekeyed once the push reports the server's.
        handle: PimdirHandle,
        /// The item's cross-source link id (a `Message-ID` header).
        link_id: PimdirLinkId,
        /// The initial flag set.
        flags: PimdirFlags,
        /// The new body's object metadata.
        object: PimdirObject,
        /// The new body bytes.
        body: Vec<u8>,
        /// The summary and addresses, when the consumer derived them.
        summary: Option<PimdirSummary>,
        /// The sort key, when the consumer's kind defines one.
        sort_key: PimdirSortKey,
    },
}

/// What a [`PimdirMutation`] says, by value.
#[allow(inconsistent_fields)]
#[verifier::ext_equal]
pub enum MutationView {
    SetFlags { handle: Text, flags: Option<Set<Text>> },
    Remove(Text),
    Edit { handle: Text, object: ObjectView, body: Seq<u8>, summary: Option<SummaryView>, sort_key: Option<Text> },
    Copy { handle: Text, target: Text, placeholder: Text },
    Move { handle: Text, target: Text, placeholder: Text },
    Add { handle: Text, link_id: Text, flags: Option<Set<Text>>, object: ObjectView, body: Seq<u8>, summary: Option<SummaryView>, sort_key: Text },
}

impl View for PimdirMutation {
    type V = MutationView;

    open spec fn view(&self) -> MutationView {
        match *self {
            PimdirMutation::SetFlags { handle, flags } => MutationView::SetFlags {
                handle: handle@,
                flags: flags@,
            },
            PimdirMutation::Remove(a) => MutationView::Remove(a@),
            PimdirMutation::Edit { handle, object, body, summary, sort_key } => MutationView::Edit {
                handle: handle@,
                object: object@,
                body: body@,
                summary: summary.deep_view(),
                sort_key: sort_key.deep_view(),
            },
            PimdirMutation::Copy { handle, target, placeholder } => MutationView::Copy {
                handle: handle@,
                target: target@,
                placeholder: placeholder@,
            },
            PimdirMutation::Move { handle, target, placeholder } => MutationView::Move {
                handle: handle@,
                target: target@,
                placeholder: placeholder@,
            },
            PimdirMutation::Add { handle, link_id, flags, object, body, summary, sort_key } => MutationView::Add {
                handle: handle@,
                link_id: link_id@,
                flags: flags@,
                object: object@,
                body: body@,
                summary: summary.deep_view(),
                sort_key: sort_key@,
            },
        }
    }
}

impl DeepView for PimdirMutation {
    type V = MutationView;

    open spec fn deep_view(&self) -> MutationView {
        self@
    }
}

impl Clone for PimdirMutation {
    fn clone(&self) -> (copy: Self)
        ensures
            copy@ == self@,
    {
        match self {
            PimdirMutation::SetFlags { handle, flags } => PimdirMutation::SetFlags {
                handle: handle.clone(),
                flags: flags.clone(),
            },
            PimdirMutation::Remove(a) => PimdirMutation::Remove(a.clone()),
            PimdirMutation::Edit { handle, object, body, summary, sort_key } => PimdirMutation::Edit {
                handle: handle.clone(),
                object: object.clone(),
                body: clone_bytes(body),
                summary: summary.clone(),
                sort_key: sort_key.clone(),
            },
            PimdirMutation::Copy { handle, target, placeholder } => PimdirMutation::Copy {
                handle: handle.clone(),
                target: target.clone(),
                placeholder: placeholder.clone(),
            },
            PimdirMutation::Move { handle, target, placeholder } => PimdirMutation::Move {
                handle: handle.clone(),
                target: target.clone(),
                placeholder: placeholder.clone(),
            },
            PimdirMutation::Add { handle, link_id, flags, object, body, summary, sort_key } => PimdirMutation::Add {
                handle: handle.clone(),
                link_id: link_id.clone(),
                flags: flags.clone(),
                object: object.clone(),
                body: clone_bytes(body),
                summary: summary.clone(),
                sort_key: sort_key.clone(),
            },
        }
    }
}

/// The placement a mutation reads, `None` for an add.
pub open spec fn read_handle(mutation: MutationView) -> Option<Text> {
    match mutation {
        MutationView::SetFlags { handle, .. } => Some(handle),
        MutationView::Remove(handle) => Some(handle),
        MutationView::Edit { handle, .. } => Some(handle),
        MutationView::Copy { handle, .. } => Some(handle),
        MutationView::Move { handle, .. } => Some(handle),
        MutationView::Add { .. } => None,
    }
}

/// The target and placeholder of a staged create.
pub open spec fn create_target_of(mutation: MutationView) -> Option<(Text, Text)> {
    match mutation {
        MutationView::Copy { target, placeholder, .. } => Some((target, placeholder)),
        MutationView::Move { target, placeholder, .. } => Some((target, placeholder)),
        _ => None,
    }
}

/// What a mutation reads: its placement, or the rows an add may hit.
pub open spec fn read_scope(mutation: MutationView) -> LoadScopeView {
    match mutation {
        MutationView::SetFlags { handle, .. } => LoadScopeView::Handles(seq![handle]),
        MutationView::Remove(handle) => LoadScopeView::Handles(seq![handle]),
        MutationView::Edit { handle, .. } => LoadScopeView::Handles(seq![handle]),
        MutationView::Copy { handle, .. } => LoadScopeView::Handles(seq![handle]),
        MutationView::Move { handle, .. } => LoadScopeView::Handles(seq![handle]),
        MutationView::Add { link_id, .. } => LoadScopeView::Links(seq![link_id]),
    }
}

impl PimdirMutation {
    /// The target and placeholder of a staged create, else `None`.
    fn create_target(&self) -> (found: Option<(&PimdirCollectionId, &PimdirHandle)>)
        ensures
            match found {
                Some((target, placeholder)) => create_target_of(self@) == Some(
                    (target@, placeholder@),
                ),
                None => create_target_of(self@) is None,
            },
    {
        match self {
            PimdirMutation::Copy { target, placeholder, .. } => Some((target, placeholder)),
            PimdirMutation::Move { target, placeholder, .. } => Some((target, placeholder)),
            _ => None,
        }
    }

    /// What the mutation reads: its placement, or the rows an add may hit.
    fn scope(&self) -> (scope: PimdirLoadScope)
        ensures
            scope@ == read_scope(self@),
    {
        match self {
            PimdirMutation::SetFlags { handle, .. }
            | PimdirMutation::Remove(handle)
            | PimdirMutation::Edit { handle, .. }
            | PimdirMutation::Copy { handle, .. }
            | PimdirMutation::Move { handle, .. } => {
                let mut handles: Vec<PimdirHandle> = Vec::new();
                push_to(&mut handles, handle.clone());
                assert(handles.deep_view() =~= seq![handle@]);
                PimdirLoadScope::Handles(handles)
            },
            PimdirMutation::Add { link_id, .. } => {
                let mut links: Vec<PimdirLinkId> = Vec::new();
                push_to(&mut links, link_id.clone());
                assert(links.deep_view() =~= seq![link_id@]);
                PimdirLoadScope::Links(links)
            },
        }
    }
}

/// Failure causes during a mutation.
#[derive(Debug)]
pub enum PimdirMutateError {
    /// The targeted handle has no placement in the collection.
    UnknownHandle(String),
    /// The targeted handle is a probe: an upgrade names it first.
    Probed(String),
    /// An add names a link id a live placement already holds.
    LinkExists(String),
    /// The caller broke the coroutine contract.
    Arg(PimdirArgError),
}

/// What a [`PimdirMutateError`] says, by value.
#[verifier::ext_equal]
pub enum MutateErrorView {
    UnknownHandle(Text),
    Probed(Text),
    LinkExists(Text),
    Arg(PimdirArgError),
}

impl View for PimdirMutateError {
    type V = MutateErrorView;

    open spec fn view(&self) -> MutateErrorView {
        match *self {
            PimdirMutateError::UnknownHandle(a) => MutateErrorView::UnknownHandle(a@),
            PimdirMutateError::Probed(a) => MutateErrorView::Probed(a@),
            PimdirMutateError::LinkExists(a) => MutateErrorView::LinkExists(a@),
            PimdirMutateError::Arg(a) => MutateErrorView::Arg(a),
        }
    }
}

impl DeepView for PimdirMutateError {
    type V = MutateErrorView;

    open spec fn deep_view(&self) -> MutateErrorView {
        self@
    }
}

impl Clone for PimdirMutateError {
    fn clone(&self) -> (copy: Self)
        ensures
            copy@ == self@,
    {
        match self {
            PimdirMutateError::UnknownHandle(a) => PimdirMutateError::UnknownHandle(a.clone()),
            PimdirMutateError::Probed(a) => PimdirMutateError::Probed(a.clone()),
            PimdirMutateError::LinkExists(a) => PimdirMutateError::LinkExists(a.clone()),
            PimdirMutateError::Arg(a) => PimdirMutateError::Arg(*a),
        }
    }
}

impl From<PimdirArgError> for PimdirMutateError {
    fn from(error: PimdirArgError) -> (made: Self) {
        PimdirMutateError::Arg(error)
    }
}

impl vstd::std_specs::convert::FromSpecImpl<PimdirArgError> for PimdirMutateError {
    open spec fn obeys_from_spec() -> bool {
        true
    }

    open spec fn from_spec(error: PimdirArgError) -> Self {
        PimdirMutateError::Arg(error)
    }
}

/// The message a log shows of a failed mutation.
pub open spec fn mutate_error_says(error: MutateErrorView) -> Text {
    match error {
        MutateErrorView::UnknownHandle(handle) => "Pimdir MUTATE failed: unknown handle "@ + handle,
        MutateErrorView::Probed(handle) => "Pimdir MUTATE failed: handle "@ + handle
            + " is a probe"@,
        MutateErrorView::LinkExists(link) => "Pimdir MUTATE failed: link id already present: "@
            + link,
        MutateErrorView::Arg(error) => error.says(),
    }
}

impl PimdirMutateError {
    /// The message a log shows.
    pub fn message(&self) -> (text: String)
        ensures
            text@ == mutate_error_says(self@),
    {
        match self {
            PimdirMutateError::UnknownHandle(handle) => {
                let mut text = "Pimdir MUTATE failed: unknown handle ".to_owned();
                text.append(handle.as_str());
                text
            },
            PimdirMutateError::Probed(handle) => {
                let mut text = "Pimdir MUTATE failed: handle ".to_owned();
                text.append(handle.as_str());
                text.append(" is a probe");
                text
            },
            PimdirMutateError::LinkExists(link) => {
                let mut text = "Pimdir MUTATE failed: link id already present: ".to_owned();
                text.append(link.as_str());
                text
            },
            PimdirMutateError::Arg(error) => error.message(),
        }
    }

    /// The broken contract behind the failure, when it is one.
    pub fn source(&self) -> (source: Option<PimdirArgError>)
        ensures
            source == match self@ {
                MutateErrorView::Arg(error) => Some(error),
                _ => None,
            },
    {
        match self {
            PimdirMutateError::Arg(error) => Some(*error),
            _ => None,
        }
    }
}

/// A placement with another flag set; a clean one then owes a push, and
/// whatever else was pending stays so.
pub open spec fn flagged(source: PlacementView, flags: Option<Set<Text>>) -> PlacementView {
    PlacementView {
        flags,
        status: if source.status == PimdirStatus::Clean {
            PimdirStatus::Dirty
        } else {
            source.status
        },
        ..source
    }
}

/// The base an edit leaves: untouched, unless it resolves a divergence,
/// which makes the remote state that was recorded the base.
pub open spec fn edit_base(source: PlacementView) -> Option<BaseView> {
    if source.conflict_revision is Some {
        Some(
            BaseView {
                flags: match source.base {
                    Some(base) => base.flags,
                    None => source.flags,
                },
                revision: source.conflict_revision,
                object: source.conflict_object,
            },
        )
    } else {
        source.base
    }
}

/// Whether an edit to `body` leaves something to push: it resolves a
/// divergence, or the base does not hold that body.
pub open spec fn edit_owes_push(source: PlacementView, body: Text) -> bool {
    source.conflict_revision is Some || !(source.base matches Some(base) && base.object == Some(
        body,
    ))
}

/// A placement with another body. An edit that owes a push goes nowhere
/// else any more and is dirty, a create staying one.
pub open spec fn edited(
    source: PlacementView,
    body: Text,
    summary: Option<SummaryView>,
    sort_key: Option<Text>,
) -> PlacementView {
    let resolving = source.conflict_revision is Some;
    let owes = edit_owes_push(source, body);
    PlacementView {
        object: Some(body),
        level: PimdirLevel::Full,
        summary: if summary is Some {
            summary
        } else {
            source.summary
        },
        sort_key: match sort_key {
            Some(sort_key) => sort_key,
            None => source.sort_key,
        },
        conflict_revision: None,
        conflict_object: if resolving {
            None
        } else {
            source.conflict_object
        },
        base: edit_base(source),
        origin: if owes {
            None
        } else {
            source.origin
        },
        status: if owes && source.status != PimdirStatus::Created {
            PimdirStatus::Dirty
        } else {
            source.status
        },
        ..source
    }
}

/// The create a copy or a move stages in its target, its origin the
/// source it copies.
pub open spec fn copied(
    source: PlacementView,
    target: Text,
    placeholder: Text,
    key: Option<Text>,
) -> PlacementView {
    PlacementView {
        collection: target,
        handle: placeholder,
        link_id: key,
        object: source.object,
        level: source.level,
        summary: source.summary,
        sort_key: source.sort_key,
        flags: source.flags,
        status: PimdirStatus::Created,
        conflict_revision: None,
        conflict_object: None,
        base: None,
        origin: Some(OriginView { collection: source.collection, handle: source.handle }),
    }
}

/// The source a move leaves: a tombstone that knows where it went.
pub open spec fn moved_away(source: PlacementView, target: Text) -> PlacementView {
    PlacementView {
        status: PimdirStatus::Tombstone,
        origin: Some(OriginView { collection: target, handle: source.handle }),
        ..source
    }
}

/// The writes an add stages: its object, then a create with no base and no
/// origin, so the next sync appends it.
pub open spec fn add_writes(collection: Text, mutation: MutationView) -> Seq<WriteOpView> {
    match mutation {
        MutationView::Add { handle, link_id, flags, object, body, summary, sort_key } => seq![
            WriteOpView::StoreObject { object, body: Some(body) },
            WriteOpView::UpsertPlacement(
                PlacementView {
                    collection,
                    handle,
                    link_id: Some(link_id),
                    object: Some(object.hash),
                    level: PimdirLevel::Full,
                    summary,
                    sort_key,
                    flags,
                    status: PimdirStatus::Created,
                    conflict_revision: None,
                    conflict_object: None,
                    base: None,
                    origin: None,
                },
            ),
        ],
        _ => Seq::empty(),
    }
}

/// The writes a mutation stages for the placement it read, `key` being the
/// identity a staged create takes in its target.
pub open spec fn staged_writes(
    collection: Text,
    mutation: MutationView,
    source: PlacementView,
    key: Option<Text>,
) -> Seq<WriteOpView> {
    match mutation {
        MutationView::SetFlags { handle, flags } => seq![
            WriteOpView::UpsertPlacement(flagged(source, flags)),
        ],
        MutationView::Remove(handle) => seq![
            WriteOpView::UpsertPlacement(
                PlacementView { status: PimdirStatus::Tombstone, ..source },
            ),
        ],
        MutationView::Edit { handle, object, body, summary, sort_key } => seq![
            WriteOpView::StoreObject { object, body: Some(body) },
            WriteOpView::UpsertPlacement(edited(source, object.hash, summary, sort_key)),
        ],
        MutationView::Copy { handle, target, placeholder } => seq![
            WriteOpView::UpsertPlacement(copied(source, target, placeholder, key)),
        ],
        MutationView::Move { handle, target, placeholder } => if source.link_id is Some {
            seq![
                WriteOpView::UpsertPlacement(copied(source, target, placeholder, key)),
                WriteOpView::UpsertPlacement(moved_away(source, target)),
            ]
        } else {
            seq![WriteOpView::UpsertPlacement(moved_away(source, target))]
        },
        MutationView::Add { .. } => add_writes(collection, mutation),
    }
}

/// The first placement under a handle.
pub open spec fn first_under(placements: Seq<PlacementView>, handle: Text) -> Option<PlacementView>
    decreases placements.len(),
{
    if placements.len() == 0 {
        None
    } else if placements[0].handle == handle {
        Some(placements[0])
    } else {
        first_under(placements.drop_first(), handle)
    }
}

/// The identities live placements hold.
pub open spec fn live_links(placements: Seq<PlacementView>) -> Set<Text> {
    Set::new(
        |link: Text|
            exists|i: int|
                0 <= i < placements.len() && (#[trigger] placements[i]).status
                    != PimdirStatus::Tombstone && placements[i].link_id == Some(link),
    )
}

/// What the coroutine is doing while it waits for the caller.
enum State {
    Start,
    Loading,
    LoadingTarget { source: PimdirPlacement, hint: PimdirLinkId, placeholder: PimdirHandle },
    Writing,
    Done,
}

/// What a mutation is waiting for.
#[verifier::ext_equal]
pub enum MutatePhase {
    /// Nothing asked for yet.
    Start,
    /// The load of what it edits.
    Loading,
    /// The load of what the target of a create holds of its identity.
    LoadingTarget { source: PlacementView, hint: Text, placeholder: Text },
    /// The write of what it staged.
    Writing,
    /// Finished.
    Done,
}

/// I/O-free MUTATE coroutine.
pub struct PimdirMutate {
    collection: PimdirCollectionId,
    mutation: PimdirMutation,
    state: State,
}

/// What a mutation is, and what it waits for.
#[verifier::ext_equal]
pub struct MutateView {
    pub collection: Text,
    pub mutation: MutationView,
    pub phase: MutatePhase,
}

impl View for PimdirMutate {
    type V = MutateView;

    closed spec fn view(&self) -> MutateView {
        MutateView {
            collection: self.collection@,
            mutation: self.mutation@,
            phase: match self.state {
                State::Start => MutatePhase::Start,
                State::Loading => MutatePhase::Loading,
                State::LoadingTarget { source, hint, placeholder } => MutatePhase::LoadingTarget {
                    source: source@,
                    hint: hint@,
                    placeholder: placeholder@,
                },
                State::Writing => MutatePhase::Writing,
                State::Done => MutatePhase::Done,
            },
        }
    }
}

/// What one step of a mutation answers.
#[verifier::ext_equal]
pub enum MutateStep {
    /// A request of the caller.
    Wants(YieldView),
    /// Staged, or why not.
    Ends(Result<(), MutateErrorView>),
}

/// A mutation that asks for its writes.
pub open spec fn asks_write(mutate: MutateView, ops: Seq<WriteOpView>) -> (MutateView, MutateStep) {
    (
        MutateView { phase: MutatePhase::Writing, ..mutate },
        MutateStep::Wants(YieldView::WantsWrite(ops)),
    )
}

/// A mutation that found what it edits loaded. An add refuses an identity
/// a live placement holds; any other refuses a handle nothing holds and a
/// probe, and a create first reads what its target holds of the identity.
pub open spec fn after_load(mutate: MutateView, loaded: LoadedView) -> (MutateView, MutateStep) {
    match mutate.mutation {
        MutationView::Add { link_id, .. } => if live_links(loaded.placements).contains(
            link_id,
        ) {
            (mutate, MutateStep::Ends(Err(MutateErrorView::LinkExists(link_id))))
        } else {
            asks_write(mutate, add_writes(mutate.collection, mutate.mutation))
        },
        _ => {
            let handle = read_handle(mutate.mutation)->0;
            match first_under(loaded.placements, handle) {
                None => (mutate, MutateStep::Ends(Err(MutateErrorView::UnknownHandle(handle)))),
                Some(source) => match source.link_id {
                    None => (mutate, MutateStep::Ends(Err(MutateErrorView::Probed(handle)))),
                    Some(hint) => match create_target_of(mutate.mutation) {
                        Some((target, placeholder)) => (
                            MutateView {
                                phase: MutatePhase::LoadingTarget { source, hint, placeholder },
                                ..mutate
                            },
                            MutateStep::Wants(
                                YieldView::WantsLoad {
                                    collection: target,
                                    scope: LoadScopeView::Links(
                                        seq![hint, minted_key(hint, placeholder)],
                                    ),
                                },
                            ),
                        ),
                        None => asks_write(
                            mutate,
                            staged_writes(mutate.collection, mutate.mutation, source, None),
                        ),
                    },
                },
            }
        },
    }
}

/// One step of a mutation.
pub open spec fn mutate_step(mutate: MutateView, arg: Option<ArgView>) -> (MutateView, MutateStep) {
    match (mutate.phase, arg) {
        (MutatePhase::Start, None) => (
            MutateView { phase: MutatePhase::Loading, ..mutate },
            MutateStep::Wants(
                YieldView::WantsLoad {
                    collection: mutate.collection,
                    scope: read_scope(mutate.mutation),
                },
            ),
        ),
        (MutatePhase::Loading, Some(ArgView::Load(loaded))) => after_load(mutate, loaded),
        (
            MutatePhase::LoadingTarget { source, hint, placeholder },
            Some(ArgView::Load(loaded)),
        ) => asks_write(
            mutate,
            staged_writes(
                mutate.collection,
                mutate.mutation,
                source,
                Some(claimed_key(hint, placeholder, live_links(loaded.placements))),
            ),
        ),
        (MutatePhase::Writing, Some(ArgView::Write)) => (
            MutateView { phase: MutatePhase::Done, ..mutate },
            MutateStep::Ends(Ok(())),
        ),
        _ => (
            mutate,
            MutateStep::Ends(
                Err(MutateErrorView::Arg(misfit(mutate.phase is Done, arg))),
            ),
        ),
    }
}

/// What a step answered.
pub open spec fn mutate_answer(
    state: PimdirCoroutineState<PimdirYield, Result<(), PimdirMutateError>>,
) -> MutateStep {
    match state {
        PimdirCoroutineState::Yielded(wants) => MutateStep::Wants(wants@),
        PimdirCoroutineState::Complete(Ok(())) => MutateStep::Ends(Ok(())),
        PimdirCoroutineState::Complete(Err(error)) => MutateStep::Ends(Err(error@)),
    }
}

/// The first placement under a handle.
fn find_under<'a>(placements: &'a Vec<PimdirPlacement>, handle: &PimdirHandle) -> (found: Option<
    &'a PimdirPlacement,
>)
    ensures
        found.deep_view() == first_under(placements.deep_view(), handle@),
{
    let ghost all = placements.deep_view();
    assert(all.skip(0) =~= all);
    let mut i: usize = 0;
    while i < placements.len()
        invariant
            i <= placements.len(),
            all == placements.deep_view(),
            first_under(all, handle@) == first_under(all.skip(i as int), handle@),
        decreases placements.len() - i,
    {
        assert(all.skip(i as int)[0] == placements@[i as int]@);
        assert(all.skip(i as int).drop_first() =~= all.skip(i + 1));
        if placements[i].handle == *handle {
            return Some(&placements[i]);
        }
        i = i + 1;
    }
    assert(all.skip(i as int).len() == 0);
    None
}

/// The identities live placements hold.
fn collect_live(placements: &Vec<PimdirPlacement>) -> (links: TextSet)
    ensures
        links@ == live_links(placements.deep_view()),
{
    let ghost all = placements.deep_view();
    let mut links = TextSet::new();
    let mut i: usize = 0;
    while i < placements.len()
        invariant
            i <= placements.len(),
            all == placements.deep_view(),
            forall|link: Text| #[trigger]
                links@.contains(link) <==> exists|j: int|
                    0 <= j < i && (#[trigger] all[j]).status != PimdirStatus::Tombstone
                        && all[j].link_id == Some(link),
        decreases placements.len() - i,
    {
        assert(all[i as int] == placements@[i as int]@);
        if placements[i].status != PimdirStatus::Tombstone {
            match &placements[i].link_id {
                Some(link) => {
                    links.insert(link.0.clone());
                },
                None => {},
            }
        }
        i = i + 1;
    }
    assert(links@ =~= live_links(all));
    links
}

impl PimdirMutate {
    /// Creates a coroutine that applies `mutation` to `collection`.
    pub fn new(collection: PimdirCollectionId, mutation: PimdirMutation) -> (mutate: Self)
        ensures
            mutate@ == (MutateView {
                collection: collection@,
                mutation: mutation@,
                phase: MutatePhase::Start,
            }),
    {
        PimdirMutate { collection, mutation, state: State::Start }
    }

    /// Stages the writes for the loaded `source` placement.
    ///
    /// `key` is the identity a staged create takes in its target. Flag
    /// sets and removes rewrite the source in place; a copy leaves it
    /// untouched and stages a pending create in the target.
    fn writes(&self, source: &PimdirPlacement, key: Option<PimdirLinkId>) -> (ops: Vec<
        PimdirWriteOp,
    >)
        ensures
            ops.deep_view() == staged_writes(
                self@.collection,
                self@.mutation,
                source@,
                key.deep_view(),
            ),
    {
        let mut ops: Vec<PimdirWriteOp> = Vec::new();
        let mut placement = source.clone();
        match &self.mutation {
            PimdirMutation::SetFlags { flags, .. } => {
                placement.flags = flags.clone();
                if placement.status == PimdirStatus::Clean {
                    placement.status = PimdirStatus::Dirty;
                }
                push_to(&mut ops, PimdirWriteOp::UpsertPlacement(placement));
            },
            PimdirMutation::Remove(_) => {
                placement.status = PimdirStatus::Tombstone;
                push_to(&mut ops, PimdirWriteOp::UpsertPlacement(placement));
            },
            PimdirMutation::Edit { object, body, summary, sort_key, .. } => {
                Self::edit(&mut placement, object, summary, sort_key);
                push_to(
                    &mut ops,
                    PimdirWriteOp::StoreObject {
                        object: object.clone(),
                        body: Some(clone_bytes(body)),
                    },
                );
                push_to(&mut ops, PimdirWriteOp::UpsertPlacement(placement));
            },
            PimdirMutation::Copy { target, placeholder, .. } => {
                let create = Self::staged_copy(source, target, placeholder, key);
                push_to(&mut ops, PimdirWriteOp::UpsertPlacement(create));
            },
            PimdirMutation::Move { target, placeholder, .. } => {
                if source.link_id.is_some() {
                    let create = Self::staged_copy(source, target, placeholder, key);
                    push_to(&mut ops, PimdirWriteOp::UpsertPlacement(create));
                }
                placement.status = PimdirStatus::Tombstone;
                placement.origin = Some(
                    PimdirOrigin { collection: target.clone(), handle: source.handle.clone() },
                );
                push_to(&mut ops, PimdirWriteOp::UpsertPlacement(placement));
            },
            PimdirMutation::Add { .. } => {
                return self.create_writes();
            },
        }
        assert(ops.deep_view() =~= staged_writes(
            self@.collection,
            self@.mutation,
            source@,
            key.deep_view(),
        ));
        ops
    }

    /// Repoints a placement at an edited body.
    ///
    /// A tombstone can carry a divergence too, so the row's divergence,
    /// not its status, says whether this edit resolves one. A revived
    /// tombstone goes nowhere any more, and a create copied from its
    /// origin would deliver the body this edit replaced.
    fn edit(
        placement: &mut PimdirPlacement,
        object: &PimdirObject,
        summary: &Option<PimdirSummary>,
        sort_key: &Option<PimdirSortKey>,
    )
        ensures
            final(placement)@ == edited(
                old(placement)@,
                object@.hash,
                summary.deep_view(),
                sort_key.deep_view(),
            ),
    {
        placement.object = Some(object.hash.clone());
        placement.level = PimdirLevel::Full;
        if summary.is_some() {
            placement.summary = summary.clone();
        }
        match sort_key {
            Some(sort_key) => {
                placement.sort_key = sort_key.clone();
            },
            None => {},
        }
        let resolving = placement.conflict_revision.is_some();
        if resolving {
            let revision = placement.conflict_revision.clone();
            let settled = placement.conflict_object.clone();
            let flags = match &placement.base {
                Some(base) => base.flags.clone(),
                None => placement.flags.clone(),
            };
            placement.conflict_revision = None;
            placement.conflict_object = None;
            placement.base = Some(PimdirBase { flags, revision, object: settled });
        }
        let staged = match &placement.base {
            Some(base) => match &base.object {
                Some(held) => *held != object.hash,
                None => true,
            },
            None => true,
        };
        if staged || resolving {
            placement.origin = None;
            if placement.status != PimdirStatus::Created {
                placement.status = PimdirStatus::Dirty;
            }
        }
    }

    /// The create a copy or a move stages in its target.
    ///
    /// It carries the source as its origin, so the push is a server-side
    /// copy, and `key` as its identity there, the source's own or a minted
    /// one.
    fn staged_copy(
        source: &PimdirPlacement,
        target: &PimdirCollectionId,
        placeholder: &PimdirHandle,
        key: Option<PimdirLinkId>,
    ) -> (create: PimdirPlacement)
        ensures
            create@ == copied(source@, target@, placeholder@, key.deep_view()),
    {
        PimdirPlacement {
            collection: target.clone(),
            handle: placeholder.clone(),
            link_id: key,
            object: source.object.clone(),
            level: source.level,
            summary: source.summary.clone(),
            sort_key: source.sort_key.clone(),
            flags: source.flags.clone(),
            status: PimdirStatus::Created,
            conflict_revision: None,
            conflict_object: None,
            base: None,
            origin: Some(
                PimdirOrigin {
                    collection: source.collection.clone(),
                    handle: source.handle.clone(),
                },
            ),
        }
    }

    /// Stages the writes for an add.
    ///
    /// A created placement with no base and no origin, so the next sync
    /// appends it rather than server-copying, plus its object.
    fn create_writes(&self) -> (ops: Vec<PimdirWriteOp>)
        ensures
            ops.deep_view() == add_writes(self@.collection, self@.mutation),
    {
        let mut ops: Vec<PimdirWriteOp> = Vec::new();
        match &self.mutation {
            PimdirMutation::Add { handle, link_id, flags, object, body, summary, sort_key } => {
                let create = PimdirPlacement {
                    collection: self.collection.clone(),
                    handle: handle.clone(),
                    link_id: Some(link_id.clone()),
                    object: Some(object.hash.clone()),
                    level: PimdirLevel::Full,
                    summary: summary.clone(),
                    sort_key: sort_key.clone(),
                    flags: flags.clone(),
                    status: PimdirStatus::Created,
                    conflict_revision: None,
                    conflict_object: None,
                    base: None,
                    origin: None,
                };
                push_to(
                    &mut ops,
                    PimdirWriteOp::StoreObject {
                        object: object.clone(),
                        body: Some(clone_bytes(body)),
                    },
                );
                push_to(&mut ops, PimdirWriteOp::UpsertPlacement(create));
            },
            _ => {},
        }
        assert(ops.deep_view() =~= add_writes(self@.collection, self@.mutation));
        ops
    }

    /// Takes in the load of what the mutation edits.
    fn load(&mut self, loaded: PimdirLoaded) -> (state: PimdirCoroutineState<
        PimdirYield,
        Result<(), PimdirMutateError>,
    >)
        ensures
            (final(self)@, mutate_answer(state)) == after_load(old(self)@, loaded@),
    {
        let handle = match &self.mutation {
            PimdirMutation::Add { link_id, .. } => {
                let live = collect_live(&loaded.placements);
                if live.contains(link_id.as_str()) {
                    return PimdirCoroutineState::Complete(
                        Err(PimdirMutateError::LinkExists(link_id.0.clone())),
                    );
                }
                let ops = self.create_writes();
                self.state = State::Writing;
                return PimdirCoroutineState::Yielded(PimdirYield::WantsWrite(ops));
            },
            PimdirMutation::SetFlags { handle, .. }
            | PimdirMutation::Remove(handle)
            | PimdirMutation::Edit { handle, .. }
            | PimdirMutation::Copy { handle, .. }
            | PimdirMutation::Move { handle, .. } => handle,
        };
        let source = match find_under(&loaded.placements, handle) {
            Some(source) => source,
            None => {
                return PimdirCoroutineState::Complete(
                    Err(PimdirMutateError::UnknownHandle(handle.0.clone())),
                );
            },
        };
        let hint = match &source.link_id {
            Some(hint) => hint.clone(),
            None => {
                return PimdirCoroutineState::Complete(
                    Err(PimdirMutateError::Probed(handle.0.clone())),
                );
            },
        };
        if let Some((target, placeholder)) = self.mutation.create_target() {
            let mut links: Vec<PimdirLinkId> = Vec::new();
            push_to(&mut links, hint.clone());
            push_to(&mut links, hint.minted(placeholder));
            assert(links.deep_view() =~= seq![hint@, minted_key(hint@, placeholder@)]);
            let collection = target.clone();
            let placeholder = placeholder.clone();
            self.state = State::LoadingTarget { source: source.clone(), hint, placeholder };
            return PimdirCoroutineState::Yielded(
                PimdirYield::WantsLoad { collection, scope: PimdirLoadScope::Links(links) },
            );
        }
        let ops = self.writes(source, None);
        self.state = State::Writing;
        PimdirCoroutineState::Yielded(PimdirYield::WantsWrite(ops))
    }
}

impl PimdirCoroutine for PimdirMutate {
    type Yield = PimdirYield;

    type Return = Result<(), PimdirMutateError>;

    fn resume(&mut self, arg: Option<PimdirArg>) -> (state: PimdirCoroutineState<
        PimdirYield,
        Result<(), PimdirMutateError>,
    >)
        ensures
            (final(self)@, mutate_answer(state)) == mutate_step(old(self)@, arg.deep_view()),
    {
        match (&self.state, arg) {
            (State::Start, None) => {
                self.state = State::Loading;
                PimdirCoroutineState::Yielded(
                    PimdirYield::WantsLoad {
                        collection: self.collection.clone(),
                        scope: self.mutation.scope(),
                    },
                )
            },
            (State::Loading, Some(PimdirArg::Load(loaded))) => self.load(loaded),
            (
                State::LoadingTarget { source, hint, placeholder },
                Some(PimdirArg::Load(loaded)),
            ) => {
                let held = collect_live(&loaded.placements);
                let key = hint.claim_among(placeholder, &held);
                let ops = self.writes(source, Some(key));
                self.state = State::Writing;
                PimdirCoroutineState::Yielded(PimdirYield::WantsWrite(ops))
            },
            (State::Writing, Some(PimdirArg::Write)) => {
                self.state = State::Done;
                PimdirCoroutineState::Complete(Ok(()))
            },
            (state, arg) => {
                let done = match state {
                    State::Done => true,
                    _ => false,
                };
                PimdirCoroutineState::Complete(Err(PimdirMutateError::Arg(misfit_of(done, &arg))))
            },
        }
    }
}

/// The placement a mutation leaves of the one it read, where it rewrites
/// it in place.
pub open spec fn rewritten(mutation: MutationView, source: PlacementView) -> Option<PlacementView> {
    match mutation {
        MutationView::SetFlags { handle, flags } => Some(flagged(source, flags)),
        MutationView::Remove(handle) => Some(
            PlacementView { status: PimdirStatus::Tombstone, ..source },
        ),
        MutationView::Edit { handle, object, body, summary, sort_key } => Some(
            edited(source, object.hash, summary, sort_key),
        ),
        MutationView::Move { handle, target, placeholder } => Some(moved_away(source, target)),
        MutationView::Copy { .. } => None,
        MutationView::Add { .. } => None,
    }
}

/// A mutation keeps the base, so the next sync derives the pending push;
/// only an edit that resolves a divergence moves it, to the remote state
/// that was recorded, revision and body.
pub proof fn lemma_base_stays_unless_resolving(
    collection: Text,
    mutation: MutationView,
    source: PlacementView,
    key: Option<Text>,
)
    requires
        rewritten(mutation, source) is Some,
    ensures
        ({
            let after = rewritten(mutation, source)->0;
            &&& staged_writes(collection, mutation, source, key).last()
                == WriteOpView::UpsertPlacement(after)
            &&& after.handle == source.handle
            &&& after.collection == source.collection
            &&& after.link_id == source.link_id
            &&& if mutation is Edit && source.conflict_revision is Some {
                &&& after.base matches Some(base)
                &&& base.revision == source.conflict_revision
                &&& base.object == source.conflict_object
                &&& after.conflict_revision is None
                &&& after.conflict_object is None
                &&& (source.status != PimdirStatus::Created ==> after.status
                    == PimdirStatus::Dirty)
            } else {
                after.base == source.base
            }
        }),
{
}

/// An edit restating the body last synced, with nothing diverging, leaves
/// nothing more to push than there was.
pub proof fn lemma_restating_the_synced_body_stages_nothing(
    source: PlacementView,
    body: Text,
    summary: Option<SummaryView>,
    sort_key: Option<Text>,
)
    requires
        source.conflict_revision is None,
        source.base matches Some(base) && base.object == Some(body),
    ensures
        edited(source, body, summary, sort_key).status == source.status,
        edited(source, body, summary, sort_key).origin == source.origin,
{
}

/// A staged create takes an identity no live placement of its target
/// holds: the source's own while it is free.
pub proof fn lemma_create_takes_a_free_identity(
    placements: Seq<PlacementView>,
    hint: Text,
    placeholder: Text,
)
    ensures
        ({
            let key = claimed_key(hint, placeholder, live_links(placements));
            &&& !live_links(placements).contains(key)
            &&& (!live_links(placements).contains(hint) ==> key == hint)
        }),
{
    let links = placements.map_values(
        |placement: PlacementView|
            match placement.link_id {
                Some(link) => link,
                None => Text::empty(),
            },
    );
    let bound = crate::placement::lemma_lengths_bounded(links);
    assert forall|key: Text| #[trigger] live_links(placements).contains(key) implies key.len()
        <= bound by {
        let i = choose|i: int|
            0 <= i < placements.len() && (#[trigger] placements[i]).status
                != PimdirStatus::Tombstone && placements[i].link_id == Some(key);
        assert(links[i] == key);
    }
    crate::placement::lemma_claim_exists(hint, placeholder, live_links(placements), bound);
}

/// A finished mutation takes no further step, and a resume that does not
/// fit what is awaited moves nothing.
pub proof fn lemma_misfit_moves_nothing(mutate: MutateView, arg: Option<ArgView>)
    ensures
        mutate.phase is Done ==> mutate_step(mutate, arg) == (
            mutate,
            MutateStep::Ends(Err(MutateErrorView::Arg(PimdirArgError::UnexpectedArg))),
        ),
        !(mutate.phase is Start) && arg is None && !(mutate.phase is Done) ==> mutate_step(
            mutate,
            arg,
        ) == (mutate, MutateStep::Ends(Err(MutateErrorView::Arg(PimdirArgError::MissingArg)))),
        (mutate_step(mutate, arg).1 matches MutateStep::Ends(Err(_))) ==> mutate_step(
            mutate,
            arg,
        ).0 == mutate,
{
}

/// A flag set writes one placement, the one it read with those flags: in
/// sync it then owes a push, and whatever else was pending stays pending.
pub proof fn lemma_a_flag_set_changes_the_flags_alone(
    collection: Text,
    handle: Text,
    flags: Option<Set<Text>>,
    source: PlacementView,
    key: Option<Text>,
)
    ensures
        ({
            let writes = staged_writes(
                collection,
                MutationView::SetFlags { handle, flags },
                source,
                key,
            );
            &&& writes.len() == 1
            &&& writes[0] matches WriteOpView::UpsertPlacement(after) && {
                &&& after.flags == flags
                &&& (source.status == PimdirStatus::Clean ==> after.status == PimdirStatus::Dirty)
                &&& (source.status != PimdirStatus::Clean ==> after.status == source.status)
                &&& after == (PlacementView { flags: after.flags, status: after.status, ..source })
            }
        }),
{
}

/// A remove writes one placement, the one it read as a tombstone: nothing
/// else of it changes, so that the sync knows what to remove.
pub proof fn lemma_a_remove_marks_its_placement(
    collection: Text,
    handle: Text,
    source: PlacementView,
    key: Option<Text>,
)
    ensures
        ({
            let writes = staged_writes(collection, MutationView::Remove(handle), source, key);
            &&& writes.len() == 1
            &&& writes[0] matches WriteOpView::UpsertPlacement(after) && {
                &&& after.status == PimdirStatus::Tombstone
                &&& after == (PlacementView { status: after.status, ..source })
            }
        }),
{
}

/// A copy writes nothing where it copies from: one create in the target,
/// under the placeholder and the key it was given, of what the source says,
/// with no base and the source as its origin.
pub proof fn lemma_a_copy_leaves_its_source(
    collection: Text,
    handle: Text,
    target: Text,
    placeholder: Text,
    source: PlacementView,
    key: Option<Text>,
)
    ensures
        ({
            let writes = staged_writes(
                collection,
                MutationView::Copy { handle, target, placeholder },
                source,
                key,
            );
            &&& writes.len() == 1
            &&& writes[0] matches WriteOpView::UpsertPlacement(create) && {
                &&& create.collection == target
                &&& create.handle == placeholder
                &&& create.link_id == key
                &&& create.status == PimdirStatus::Created
                &&& create.object == source.object
                &&& create.level == source.level
                &&& create.summary == source.summary
                &&& create.sort_key == source.sort_key
                &&& create.flags == source.flags
                &&& create.base is None
                &&& create.conflict_revision is None
                &&& create.conflict_object is None
                &&& create.origin matches Some(origin) && origin.collection == source.collection
                    && origin.handle == source.handle
            }
        }),
{
}

/// A move is a copy and a remove in one batch: the create the copy of the
/// same item would stage, and the source as a tombstone that names where it
/// went and is otherwise as it was.
pub proof fn lemma_a_move_copies_and_removes(
    collection: Text,
    handle: Text,
    target: Text,
    placeholder: Text,
    source: PlacementView,
    key: Option<Text>,
)
    requires
        source.link_id is Some,
    ensures
        ({
            let writes = staged_writes(
                collection,
                MutationView::Move { handle, target, placeholder },
                source,
                key,
            );
            let copies = staged_writes(
                collection,
                MutationView::Copy { handle, target, placeholder },
                source,
                key,
            );
            &&& writes.len() == 2
            &&& writes[0] == copies[0]
            &&& writes[1] matches WriteOpView::UpsertPlacement(gone) && {
                &&& gone.status == PimdirStatus::Tombstone
                &&& gone.origin matches Some(origin) && origin.collection == target
                    && origin.handle == source.handle
                &&& gone == (PlacementView { status: gone.status, origin: gone.origin, ..source })
            }
        }),
{
}

/// An edit stores its body and points the placement it read at it, full:
/// the summary and the sort key follow where they were derived and stay
/// where they were not. One that leaves something to push is dirty, a create
/// staying one, and goes nowhere else any more; it is none where the body is
/// the one last synced and nothing diverged.
pub proof fn lemma_an_edit_points_at_its_body(
    collection: Text,
    handle: Text,
    object: crate::object::ObjectView,
    body: Seq<u8>,
    summary: Option<SummaryView>,
    sort_key: Option<Text>,
    source: PlacementView,
    key: Option<Text>,
)
    ensures
        ({
            let writes = staged_writes(
                collection,
                MutationView::Edit { handle, object, body, summary, sort_key },
                source,
                key,
            );
            let pushes = source.conflict_revision is Some || source.base is None
                || source.base->0.object != Some(object.hash);
            &&& writes.len() == 2
            &&& writes[0] == (WriteOpView::StoreObject { object, body: Some(body) })
            &&& writes[1] matches WriteOpView::UpsertPlacement(after) && {
                &&& after.object == Some(object.hash)
                &&& after.level == PimdirLevel::Full
                &&& after.collection == source.collection && after.handle == source.handle
                    && after.link_id == source.link_id && after.flags == source.flags
                &&& (summary is Some ==> after.summary == summary)
                &&& (summary is None ==> after.summary == source.summary)
                &&& (sort_key matches Some(sort_key) ==> after.sort_key == sort_key)
                &&& (sort_key is None ==> after.sort_key == source.sort_key)
                &&& after.conflict_revision is None
                &&& (source.conflict_revision is Some ==> after.conflict_object is None)
                &&& (pushes && source.status != PimdirStatus::Created ==> after.status
                    == PimdirStatus::Dirty)
                &&& (source.status == PimdirStatus::Created ==> after.status
                    == PimdirStatus::Created)
                &&& (pushes ==> after.origin is None)
                &&& (!pushes ==> after.status == source.status && after.origin == source.origin)
                &&& (source.conflict_revision is None ==> after.base == source.base)
                &&& (source.conflict_revision is Some ==> after.base is Some
                    && after.base->0.revision == source.conflict_revision && after.base->0.object
                    == source.conflict_object)
            }
        }),
{
}

/// An add stores its body and creates the placement it describes, in its
/// collection, full, with no base and no origin.
pub proof fn lemma_an_add_creates_what_it_describes(collection: Text, mutation: MutationView)
    requires
        mutation is Add,
    ensures
        mutation matches MutationView::Add { handle, link_id, flags, object, body, summary, sort_key }
            && {
            let writes = add_writes(collection, mutation);
            &&& writes.len() == 2
            &&& writes[0] == (WriteOpView::StoreObject { object, body: Some(body) })
            &&& writes[1] matches WriteOpView::UpsertPlacement(create) && {
                &&& create.collection == collection && create.handle == handle && create.link_id
                    == Some(link_id)
                &&& create.object == Some(object.hash) && create.level == PimdirLevel::Full
                &&& create.summary == summary && create.sort_key == sort_key && create.flags
                    == flags
                &&& create.status == PimdirStatus::Created
                &&& create.base is None && create.origin is None
                &&& create.conflict_revision is None && create.conflict_object is None
            }
        },
{
}

/// A mutation reads the row it is about and no other: the placement under
/// its handle, or for an add the rows of its identity.
pub proof fn lemma_a_mutation_reads_its_row(mutate: MutateView)
    requires
        mutate.phase is Start,
    ensures
        mutate_step(mutate, None).1 matches MutateStep::Wants(
            YieldView::WantsLoad { collection, scope },
        ) && {
            &&& collection == mutate.collection
            &&& match mutate.mutation {
                MutationView::Add { link_id, .. } => scope == LoadScopeView::Links(seq![link_id]),
                MutationView::SetFlags { handle, .. } => scope == LoadScopeView::Handles(
                    seq![handle],
                ),
                MutationView::Remove(handle) => scope == LoadScopeView::Handles(seq![handle]),
                MutationView::Edit { handle, .. } => scope == LoadScopeView::Handles(
                    seq![handle],
                ),
                MutationView::Copy { handle, .. } => scope == LoadScopeView::Handles(
                    seq![handle],
                ),
                MutationView::Move { handle, .. } => scope == LoadScopeView::Handles(
                    seq![handle],
                ),
            }
        },
        mutate_step(mutate, None).0.phase is Loading,
{
}

/// The placement found under a handle is the first that stands under it, and
/// none is found only where none does.
pub proof fn lemma_the_first_under_a_handle(placements: Seq<PlacementView>, handle: Text, i: int)
    requires
        0 <= i < placements.len(),
        placements[i].handle == handle,
        forall|j: int| 0 <= j < i ==> (#[trigger] placements[j]).handle != handle,
    ensures
        first_under(placements, handle) == Some(placements[i]),
    decreases i,
{
    if i > 0 {
        let rest = placements.drop_first();
        assert(placements[0].handle != handle);
        assert forall|j: int| 0 <= j < i - 1 implies (#[trigger] rest[j]).handle != handle by {
            assert(rest[j] == placements[j + 1]);
        }
        assert(rest[i - 1] == placements[i]);
        lemma_the_first_under_a_handle(rest, handle, i - 1);
    }
}

/// A handle nothing stands under is found under nothing.
pub proof fn lemma_an_unknown_handle_is_not_found(placements: Seq<PlacementView>, handle: Text)
    requires
        forall|j: int| 0 <= j < placements.len() ==> (#[trigger] placements[j]).handle != handle,
    ensures
        first_under(placements, handle) is None,
    decreases placements.len(),
{
    if placements.len() > 0 {
        let rest = placements.drop_first();
        assert(placements[0].handle != handle);
        assert forall|j: int| 0 <= j < rest.len() implies (#[trigger] rest[j]).handle != handle by {
            assert(rest[j] == placements[j + 1]);
        }
        lemma_an_unknown_handle_is_not_found(rest, handle);
    }
}

/// A mutation refuses what it cannot stage: an edit of a handle nothing
/// holds and of a probe, and an add of an identity a live row holds; a
/// tombstone's identity is free. What it does not refuse it goes on with.
pub proof fn lemma_a_mutation_refuses_what_it_cannot_stage(
    mutate: MutateView,
    loaded: LoadedView,
    handle: Text,
)
    requires
        mutate.phase is Loading,
    ensures
        ({
            let (after, step) = mutate_step(mutate, Some(ArgView::Load(loaded)));
            &&& mutate.mutation matches MutationView::Add { link_id, .. } ==> {
                let taken = exists|i: int|
                    0 <= i < loaded.placements.len() && (#[trigger] loaded.placements[i]).status
                        != PimdirStatus::Tombstone && loaded.placements[i].link_id == Some(
                        link_id,
                    );
                &&& taken ==> step == MutateStep::Ends(Err(MutateErrorView::LinkExists(link_id)))
                    && after == mutate
                &&& !taken ==> step is Wants && after.phase is Writing
            }
            &&& !(mutate.mutation is Add) && read_handle(mutate.mutation) == Some(handle) ==> {
                &&& first_under(loaded.placements, handle) is None ==> step == MutateStep::Ends(
                    Err(MutateErrorView::UnknownHandle(handle)),
                )
                &&& first_under(loaded.placements, handle) matches Some(source) ==> (
                source.link_id is None ==> step == MutateStep::Ends(
                    Err(MutateErrorView::Probed(handle)),
                ))
                &&& first_under(loaded.placements, handle) matches Some(source) ==> (
                source.link_id is Some ==> step is Wants)
            }
        }),
{
}

/// A copy or a move reads its target for the identity it carries and the one
/// it would mint of it, and then creates under an identity no live row
/// there holds: its own while that is free.
pub proof fn lemma_a_create_reads_its_target_first(
    mutate: MutateView,
    loaded: LoadedView,
    source: PlacementView,
    hint: Text,
    held: LoadedView,
)
    requires
        mutate.phase is Loading,
        mutate.mutation is Copy || mutate.mutation is Move,
        first_under(loaded.placements, read_handle(mutate.mutation)->0) == Some(source),
        source.link_id == Some(hint),
    ensures
        ({
            let (waits, asks) = mutate_step(mutate, Some(ArgView::Load(loaded)));
            let (target, placeholder) = match mutate.mutation {
                MutationView::Copy { target, placeholder, .. } => (target, placeholder),
                MutationView::Move { target, placeholder, .. } => (target, placeholder),
                _ => (Seq::empty(), Seq::empty()),
            };
            &&& asks == MutateStep::Wants(
                YieldView::WantsLoad {
                    collection: target,
                    scope: LoadScopeView::Links(
                        seq![hint, "dup:"@ + hint + "#"@ + placeholder],
                    ),
                },
            )
            &&& mutate_step(waits, Some(ArgView::Load(held))).1 matches MutateStep::Wants(
                YieldView::WantsWrite(ops),
            ) && ops[0] matches WriteOpView::UpsertPlacement(create) && {
                &&& create.collection == target
                &&& create.handle == placeholder
                &&& create.link_id is Some
                &&& forall|i: int|
                    0 <= i < held.placements.len() && (#[trigger] held.placements[i]).status
                        != PimdirStatus::Tombstone ==> held.placements[i].link_id
                        != create.link_id
                &&& (forall|i: int|
                    0 <= i < held.placements.len() && (#[trigger] held.placements[i]).status
                        != PimdirStatus::Tombstone ==> held.placements[i].link_id != Some(hint))
                    ==> create.link_id == Some(hint)
            }
        }),
{
    let (_, placeholder) = create_target_of(mutate.mutation)->0;
    lemma_create_takes_a_free_identity(held.placements, hint, placeholder);
    let key = claimed_key(hint, placeholder, live_links(held.placements));
    assert forall|i: int|
        0 <= i < held.placements.len() && (#[trigger] held.placements[i]).status
            != PimdirStatus::Tombstone implies held.placements[i].link_id != Some(key) by {
        if held.placements[i].link_id == Some(key) {
            assert(live_links(held.placements).contains(key));
        }
    }
}

} // verus!
