//! # The queue
//!
//! The producer role, whose only write is the enqueue transaction, and the
//! owner's drain, which stages each action through the mutate verb and
//! deletes its row in one transaction.
//!
//! What the store holds comes in as arguments; the rows to write and the
//! verdict on each queued action go out.

use crate::change::{PimdirWriteOp, WriteOpView};
use crate::client::write::{moved_by, unpinned, at_most_one, PimdirRowOp, RowOpView};
use crate::client::{ErrorView, PimdirError};
use crate::codec::{
    action_from_payload, action_of, action_to_payload, decoded_view, json_fields, payload_text,
    push_signed, signed_text, ActionErrorView, ActionView, PimdirAction, PimdirActionError,
};
use crate::collection::PimdirCollectionId;
use crate::coroutine::{PimdirArg, PimdirCoroutine, PimdirCoroutineState, PimdirYield};
use crate::hub::{
    lemma_a_projection_names_each_item_once, projection, HubView, PimdirHub, PimdirSourceId,
};
use crate::list::push_to;
use crate::load::PimdirLoaded;
use crate::mutate::{
    create_target_of, first_under, live_links, mutate_error_says, read_handle, staged_writes,
    MutateErrorView, MutationView, PimdirMutate, PimdirMutation,
};
use crate::object::{ObjectView, PimdirObject};
use crate::placement::{
    claimed_key, minted_key, PimdirHandle, PimdirLevel, PimdirLinkId, PimdirPlacement,
    PimdirSortKey, PimdirStatus, PlacementView,
};
use crate::summary::{derived, DerivationView, PimdirDerivation};
use crate::text::Text;
use crate::text_map::in_order;
use vstd::prelude::*;
use vstd::string::*;

verus! {

/// One pending queue row, in append order.
#[derive(Debug, PartialEq, Eq)]
pub struct PimdirPendingAction {
    /// The row's global append id.
    pub id: i64,
    /// The RFC 3339 instant the row was stamped with.
    pub created_at: String,
    /// The enqueuing process, diagnostic only.
    pub producer: String,
    /// The decoded action.
    pub action: PimdirAction,
    /// Apply attempts so far.
    pub attempts: i64,
}

/// What a [`PimdirPendingAction`] says, by value.
#[verifier::ext_equal]
pub struct PendingActionView {
    pub id: i64,
    pub created_at: Text,
    pub producer: Text,
    pub action: ActionView,
    pub attempts: i64,
}

impl View for PimdirPendingAction {
    type V = PendingActionView;

    open spec fn view(&self) -> PendingActionView {
        PendingActionView {
            id: self.id,
            created_at: self.created_at@,
            producer: self.producer@,
            action: self.action@,
            attempts: self.attempts,
        }
    }
}

impl DeepView for PimdirPendingAction {
    type V = PendingActionView;

    open spec fn deep_view(&self) -> PendingActionView {
        self@
    }
}

impl Clone for PimdirPendingAction {
    fn clone(&self) -> (copy: Self)
        ensures
            copy@ == self@,
    {
        PimdirPendingAction {
            id: self.id,
            created_at: self.created_at.clone(),
            producer: self.producer.clone(),
            action: self.action.clone(),
            attempts: self.attempts,
        }
    }
}

/// One parked queue row.
///
/// An action the owner judged permanently unappliable, left for operators.
#[derive(Debug, PartialEq, Eq)]
pub struct PimdirParkedAction {
    /// The row's global append id.
    pub id: i64,
    /// The RFC 3339 instant the row was stamped with.
    pub created_at: String,
    /// The enqueuing process, diagnostic only.
    pub producer: String,
    /// The target collection.
    pub collection: String,
    /// The raw action kind.
    pub action: String,
    /// The raw versioned JSON payload.
    pub payload: String,
    /// Apply attempts before parking.
    pub attempts: i64,
    /// The failure that parked the row.
    pub error: String,
}

/// What a [`PimdirParkedAction`] says, by value.
#[verifier::ext_equal]
pub struct ParkedActionView {
    pub id: i64,
    pub created_at: Text,
    pub producer: Text,
    pub collection: Text,
    pub action: Text,
    pub payload: Text,
    pub attempts: i64,
    pub error: Text,
}

impl View for PimdirParkedAction {
    type V = ParkedActionView;

    open spec fn view(&self) -> ParkedActionView {
        ParkedActionView {
            id: self.id,
            created_at: self.created_at@,
            producer: self.producer@,
            collection: self.collection@,
            action: self.action@,
            payload: self.payload@,
            attempts: self.attempts,
            error: self.error@,
        }
    }
}

impl DeepView for PimdirParkedAction {
    type V = ParkedActionView;

    open spec fn deep_view(&self) -> ParkedActionView {
        self@
    }
}

impl Clone for PimdirParkedAction {
    fn clone(&self) -> (copy: Self)
        ensures
            copy@ == self@,
    {
        PimdirParkedAction {
            id: self.id,
            created_at: self.created_at.clone(),
            producer: self.producer.clone(),
            collection: self.collection.clone(),
            action: self.action.clone(),
            payload: self.payload.clone(),
            attempts: self.attempts,
            error: self.error.clone(),
        }
    }
}

/// What a drain pass did.
#[derive(Clone, Copy, Debug, Eq, PartialEq)]
pub struct PimdirDrainReport {
    /// Actions applied and deleted from the queue.
    pub applied: usize,
    /// Actions parked with an error.
    pub parked: usize,
    /// Actions this owner could not perform, left pending for one that can.
    pub skipped: usize,
}

impl Default for PimdirDrainReport {
    fn default() -> (report: Self)
        ensures
            report.applied == 0,
            report.parked == 0,
            report.skipped == 0,
    {
        PimdirDrainReport { applied: 0, parked: 0, skipped: 0 }
    }
}

/// One raw pending row, the payload undecoded so a malformed one parks
/// rather than failing the pass.
#[derive(Debug, PartialEq, Eq)]
pub struct PimdirQueueRow {
    /// The row's global append id.
    pub id: i64,
    /// The instant the row was stamped with.
    pub created_at: String,
    /// The enqueuing process.
    pub producer: String,
    /// The action kind.
    pub action: String,
    /// The versioned JSON payload.
    pub payload: String,
    /// The body the row pins.
    pub object_hash: Option<String>,
    /// Apply attempts so far.
    pub attempts: i64,
}

/// What a [`PimdirQueueRow`] says, by value.
#[verifier::ext_equal]
pub struct QueueRowView {
    pub id: i64,
    pub created_at: Text,
    pub producer: Text,
    pub action: Text,
    pub payload: Text,
    pub object_hash: Option<Text>,
    pub attempts: i64,
}

impl View for PimdirQueueRow {
    type V = QueueRowView;

    open spec fn view(&self) -> QueueRowView {
        QueueRowView {
            id: self.id,
            created_at: self.created_at@,
            producer: self.producer@,
            action: self.action@,
            payload: self.payload@,
            object_hash: self.object_hash.deep_view(),
            attempts: self.attempts,
        }
    }
}

impl DeepView for PimdirQueueRow {
    type V = QueueRowView;

    open spec fn deep_view(&self) -> QueueRowView {
        self@
    }
}

impl Clone for PimdirQueueRow {
    fn clone(&self) -> (copy: Self)
        ensures
            copy@ == self@,
    {
        PimdirQueueRow {
            id: self.id,
            created_at: self.created_at.clone(),
            producer: self.producer.clone(),
            action: self.action.clone(),
            payload: self.payload.clone(),
            object_hash: self.object_hash.clone(),
            attempts: self.attempts,
        }
    }
}

/// A queue row to append.
#[derive(Debug, PartialEq, Eq)]
pub struct PimdirNewAction {
    /// The enqueuing process.
    pub producer: String,
    /// The target collection.
    pub collection: String,
    /// The action kind.
    pub action: String,
    /// The versioned JSON payload.
    pub payload: String,
    /// The body the row pins.
    pub object_hash: Option<String>,
}

/// What a [`PimdirNewAction`] says, by value.
#[verifier::ext_equal]
pub struct NewActionView {
    pub producer: Text,
    pub collection: Text,
    pub action: Text,
    pub payload: Text,
    pub object_hash: Option<Text>,
}

impl View for PimdirNewAction {
    type V = NewActionView;

    open spec fn view(&self) -> NewActionView {
        NewActionView {
            producer: self.producer@,
            collection: self.collection@,
            action: self.action@,
            payload: self.payload@,
            object_hash: self.object_hash.deep_view(),
        }
    }
}

impl DeepView for PimdirNewAction {
    type V = NewActionView;

    open spec fn deep_view(&self) -> NewActionView {
        self@
    }
}

impl Clone for PimdirNewAction {
    fn clone(&self) -> (copy: Self)
        ensures
            copy@ == self@,
    {
        PimdirNewAction {
            producer: self.producer.clone(),
            collection: self.collection.clone(),
            action: self.action.clone(),
            payload: self.payload.clone(),
            object_hash: self.object_hash.clone(),
        }
    }
}

/// What an enqueue writes, in order.
#[derive(Debug, PartialEq, Eq)]
pub struct PimdirEnqueue {
    /// The rows written first.
    pub before: Vec<PimdirRowOp>,
    /// The row appended.
    pub row: PimdirNewAction,
    /// The rows written last.
    pub after: Vec<PimdirRowOp>,
}

/// What a [`PimdirEnqueue`] says, by value.
#[verifier::ext_equal]
pub struct EnqueueView {
    pub before: Seq<RowOpView>,
    pub row: NewActionView,
    pub after: Seq<RowOpView>,
}

impl View for PimdirEnqueue {
    type V = EnqueueView;

    open spec fn view(&self) -> EnqueueView {
        EnqueueView {
            before: self.before.deep_view(),
            row: self.row@,
            after: self.after.deep_view(),
        }
    }
}

impl DeepView for PimdirEnqueue {
    type V = EnqueueView;

    open spec fn deep_view(&self) -> EnqueueView {
        self@
    }
}

/// What staging one queued action came to.
#[derive(Debug, PartialEq, Eq)]
pub enum PimdirStaged {
    /// The writes it folds into the store.
    Writes(Vec<PimdirWriteOp>),
    /// It will never apply: the row parks with this reason.
    Parked(String),
    /// Not this owner's: the row is left as found.
    Skipped,
}

/// What a [`PimdirStaged`] says, by value.
#[verifier::ext_equal]
pub enum StagedView {
    Writes(Seq<WriteOpView>),
    Parked(Text),
    Skipped,
}

impl View for PimdirStaged {
    type V = StagedView;

    open spec fn view(&self) -> StagedView {
        match *self {
            PimdirStaged::Writes(a) => StagedView::Writes(a.deep_view()),
            PimdirStaged::Parked(a) => StagedView::Parked(a@),
            PimdirStaged::Skipped => StagedView::Skipped,
        }
    }
}

impl DeepView for PimdirStaged {
    type V = StagedView;

    open spec fn deep_view(&self) -> StagedView {
        self@
    }
}

/// What a drain did with one row.
#[derive(Debug, PartialEq, Eq)]
pub enum PimdirOutcome {
    /// Applied and its row deleted.
    Applied,
    /// It will never apply: the row parks with this reason.
    Parked(String),
    /// Not this owner's, or not this transaction's: the row is left as found.
    Skipped,
}

/// What a [`PimdirOutcome`] says, by value.
#[verifier::ext_equal]
pub enum OutcomeView {
    Applied,
    Parked(Text),
    Skipped,
}

impl View for PimdirOutcome {
    type V = OutcomeView;

    open spec fn view(&self) -> OutcomeView {
        match *self {
            PimdirOutcome::Applied => OutcomeView::Applied,
            PimdirOutcome::Parked(a) => OutcomeView::Parked(a@),
            PimdirOutcome::Skipped => OutcomeView::Skipped,
        }
    }
}

impl DeepView for PimdirOutcome {
    type V = OutcomeView;

    open spec fn deep_view(&self) -> OutcomeView {
        self@
    }
}

impl Clone for PimdirOutcome {
    fn clone(&self) -> (copy: Self)
        ensures
            copy@ == self@,
    {
        match self {
            PimdirOutcome::Applied => PimdirOutcome::Applied,
            PimdirOutcome::Parked(a) => PimdirOutcome::Parked(a.clone()),
            PimdirOutcome::Skipped => PimdirOutcome::Skipped,
        }
    }
}

/// What a drain does with a row before it opens a transaction.
#[derive(Debug, PartialEq, Eq)]
pub enum PimdirDrainStep {
    /// Applies the action.
    Apply(PimdirAction),
    /// Parks the row with this reason.
    Park(String),
    /// Leaves the row as found.
    Skip,
}

/// What a [`PimdirDrainStep`] says, by value.
#[verifier::ext_equal]
pub enum DrainStepView {
    Apply(ActionView),
    Park(Text),
    Skip,
}

impl View for PimdirDrainStep {
    type V = DrainStepView;

    open spec fn view(&self) -> DrainStepView {
        match *self {
            PimdirDrainStep::Apply(a) => DrainStepView::Apply(a@),
            PimdirDrainStep::Park(a) => DrainStepView::Park(a@),
            PimdirDrainStep::Skip => DrainStepView::Skip,
        }
    }
}

impl DeepView for PimdirDrainStep {
    type V = DrainStepView;

    open spec fn deep_view(&self) -> DrainStepView {
        self@
    }
}

/// What becomes of a row after its transaction.
#[derive(Debug, PartialEq, Eq)]
pub enum PimdirVerdict {
    /// It was applied and is gone.
    Applied,
    /// It parks with this reason.
    Parked(String),
    /// It is left as found.
    Skipped,
    /// Its attempts are bumped and the pass stops with this error.
    Stopped(PimdirError),
}

/// What a [`PimdirVerdict`] says, by value.
#[verifier::ext_equal]
pub enum VerdictView {
    Applied,
    Parked(Text),
    Skipped,
    Stopped(ErrorView),
}

impl View for PimdirVerdict {
    type V = VerdictView;

    open spec fn view(&self) -> VerdictView {
        match *self {
            PimdirVerdict::Applied => VerdictView::Applied,
            PimdirVerdict::Parked(a) => VerdictView::Parked(a@),
            PimdirVerdict::Skipped => VerdictView::Skipped,
            PimdirVerdict::Stopped(a) => VerdictView::Stopped(a@),
        }
    }
}

impl DeepView for PimdirVerdict {
    type V = VerdictView;

    open spec fn deep_view(&self) -> VerdictView {
        self@
    }
}

/// A row with its payload decoded, or why it does not decode.
pub open spec fn decoded(row: QueueRowView) -> Result<PendingActionView, ActionErrorView> {
    match action_of(row.action, row.payload, json_fields(row.payload)) {
        Ok(action) => Ok(
            PendingActionView {
                id: row.id,
                created_at: row.created_at,
                producer: row.producer,
                action,
                attempts: row.attempts,
            },
        ),
        Err(error) => Err(error),
    }
}

impl PimdirQueueRow {
    /// The row with its payload decoded.
    pub fn decode(&self) -> (pending: Result<PimdirPendingAction, PimdirActionError>)
        ensures
            match pending {
                Ok(pending) => decoded(self@) == Ok::<PendingActionView, ActionErrorView>(pending@),
                Err(error) => decoded(self@) == Err::<PendingActionView, ActionErrorView>(error@),
            },
    {
        match action_from_payload(self.action.as_str(), self.payload.as_str()) {
            Ok(action) => Ok(
                PimdirPendingAction {
                    id: self.id,
                    created_at: self.created_at.clone(),
                    producer: self.producer.clone(),
                    action,
                    attempts: self.attempts,
                },
            ),
            Err(error) => Err(error),
        }
    }
}

/// The rows decoded in order, or the first that does not.
pub open spec fn all_decoded(rows: Seq<QueueRowView>) -> Result<
    Seq<PendingActionView>,
    ActionErrorView,
>
    decreases rows.len(),
{
    if rows.len() == 0 {
        Ok(Seq::empty())
    } else {
        match all_decoded(rows.drop_last()) {
            Err(error) => Err(error),
            Ok(actions) => match decoded(rows.last()) {
                Err(error) => Err(error),
                Ok(action) => Ok(actions.push(action)),
            },
        }
    }
}

proof fn lemma_a_malformed_row_fails_the_read(rows: Seq<QueueRowView>, i: int)
    requires
        0 <= i <= rows.len(),
        all_decoded(rows.take(i)) is Err,
    ensures
        all_decoded(rows) == all_decoded(rows.take(i)),
    decreases rows.len() - i,
{
    if i < rows.len() {
        assert(rows.take(i + 1).drop_last() =~= rows.take(i));
        lemma_a_malformed_row_fails_the_read(rows, i + 1);
    } else {
        assert(rows.take(i) =~= rows);
    }
}

/// Reads a collection's pending rows, decoding each payload strictly: a
/// malformed one is the read's error.
pub fn pending_actions(rows: &Vec<PimdirQueueRow>) -> (actions: Result<
    Vec<PimdirPendingAction>,
    PimdirError,
>)
    ensures
        match actions {
            Ok(actions) => all_decoded(rows.deep_view()) == Ok::<
                Seq<PendingActionView>,
                ActionErrorView,
            >(actions.deep_view()),
            Err(error) => all_decoded(rows.deep_view()) matches Err(cause) && error@
                == ErrorView::Action(cause),
        },
{
    let mut actions: Vec<PimdirPendingAction> = Vec::new();
    let ghost all = rows.deep_view();
    let mut i: usize = 0;
    assert(actions.deep_view() =~= Seq::empty());
    while i < rows.len()
        invariant
            i <= rows.len(),
            all == rows.deep_view(),
            all_decoded(all.take(i as int)) == Ok::<Seq<PendingActionView>, ActionErrorView>(
                actions.deep_view(),
            ),
        decreases rows.len() - i,
    {
        proof {
            assert(all.take(i + 1).drop_last() =~= all.take(i as int));
            assert(all.take(i + 1).last() == rows@[i as int]@);
        }
        match rows[i].decode() {
            Ok(action) => push_to(&mut actions, action),
            Err(error) => {
                proof {
                    lemma_a_malformed_row_fails_the_read(all, i + 1);
                }
                return Err(PimdirError::Action(error));
            },
        }
        i = i + 1;
    }
    assert(all.take(i as int) =~= all);
    Ok(actions)
}

/// The rows that decode, in order.
pub open spec fn decodable(rows: Seq<QueueRowView>) -> Seq<PendingActionView>
    decreases rows.len(),
{
    if rows.len() == 0 {
        Seq::empty()
    } else {
        match decoded(rows.last()) {
            Ok(action) => decodable(rows.drop_last()).push(action),
            Err(_) => decodable(rows.drop_last()),
        }
    }
}

/// Reads a collection's pending rows for an overlay: a row whose payload
/// does not decode is left out, the drain being what parks it.
pub fn overlaid_actions(rows: &Vec<PimdirQueueRow>) -> (actions: Vec<PimdirPendingAction>)
    ensures
        actions.deep_view() == decodable(rows.deep_view()),
{
    let mut actions: Vec<PimdirPendingAction> = Vec::new();
    let ghost all = rows.deep_view();
    let mut i: usize = 0;
    assert(actions.deep_view() =~= Seq::empty());
    while i < rows.len()
        invariant
            i <= rows.len(),
            all == rows.deep_view(),
            actions.deep_view() == decodable(all.take(i as int)),
        decreases rows.len() - i,
    {
        proof {
            assert(all.take(i + 1).drop_last() =~= all.take(i as int));
            assert(all.take(i + 1).last() == rows@[i as int]@);
        }
        if let Ok(action) = rows[i].decode() {
            push_to(&mut actions, action);
        }
        i = i + 1;
    }
    assert(all.take(i as int) =~= all);
    actions
}

/// Where every row decodes, the overlay shows what the strict read does.
pub proof fn lemma_an_overlay_loses_no_sound_row(rows: Seq<QueueRowView>)
    ensures
        all_decoded(rows) matches Ok(actions) ==> decodable(rows) == actions,
    decreases rows.len(),
{
    if rows.len() > 0 {
        lemma_an_overlay_loses_no_sound_row(rows.drop_last());
    }
}

/// What an enqueue writes: the collection, the body passed along, the row,
/// and the pin on the body the action names.
pub open spec fn enqueued(
    producer: Text,
    account: Option<Text>,
    collection: Text,
    action: ActionView,
    object: Option<ObjectView>,
) -> EnqueueView {
    EnqueueView {
        before: seq![RowOpView::EnsureCollection { collection, account }] + match object {
            Some(object) => seq![
                RowOpView::StoreObject { hash: object.hash, size: object.size as i64, body: None },
            ],
            None => Seq::empty(),
        },
        row: NewActionView {
            producer,
            collection,
            action: action.kind(),
            payload: payload_text(action),
            object_hash: action.object_hash(),
        },
        after: at_most_one(action.object_hash()).map_values(
            |hash: Text| RowOpView::AdjustRefcount { hash, delta: 1i64 },
        ),
    }
}

/// Appends one action to a collection's queue: the collection is there
/// first, at most one object is indexed for the body the caller wrote and
/// passes as `object`, hash and size together, and the insert pins the hash
/// the action names. A body the store already indexes may be passed again
/// or left out.
pub fn enqueue(
    producer: &str,
    account: &Option<String>,
    collection: &str,
    action: &PimdirAction,
    object: &Option<PimdirObject>,
) -> (writes: PimdirEnqueue)
    ensures
        writes@ == enqueued(producer@, account.deep_view(), collection@, action@, object.deep_view()),
{
    let mut before: Vec<PimdirRowOp> = Vec::new();
    push_to(
        &mut before,
        PimdirRowOp::EnsureCollection {
            collection: collection.to_owned(),
            account: account.clone(),
        },
    );
    if let Some(object) = object {
        push_to(
            &mut before,
            PimdirRowOp::StoreObject {
                hash: object.hash.0.clone(),
                size: #[verifier::truncate] (object.size as i64),
                body: None,
            },
        );
    }
    let mut after: Vec<PimdirRowOp> = Vec::new();
    let mut object_hash: Option<String> = None;
    if let Some(hash) = action.object_hash() {
        push_to(&mut after, PimdirRowOp::AdjustRefcount { hash: hash.0.clone(), delta: 1 });
        object_hash = Some(hash.0.clone());
    }
    let writes = PimdirEnqueue {
        before,
        row: PimdirNewAction {
            producer: producer.to_owned(),
            collection: collection.to_owned(),
            action: action.kind().to_owned(),
            payload: action_to_payload(action),
            object_hash,
        },
        after,
    };
    proof {
        let wanted = enqueued(
            producer@,
            account.deep_view(),
            collection@,
            action@,
            object.deep_view(),
        );
        assert(writes@.before =~= wanted.before);
        assert(writes@.after =~= wanted.after);
    }
    writes
}

/// The handle a create staged from a queue row goes under until its push.
pub open spec fn queue_handle(row_id: i64) -> Text {
    "queue-"@ + signed_text(row_id as int)
}

/// The handle a create staged from a queue row goes under.
fn handle_for_row(row_id: i64) -> (handle: PimdirHandle)
    ensures
        handle@ == queue_handle(row_id),
{
    let mut text = "queue-".to_owned();
    push_signed(&mut text, row_id);
    PimdirHandle(text)
}

/// What a body says under a collection's kind, where there is one.
pub open spec fn derivation_of(kind: Text, body: Option<Seq<u8>>) -> Option<DerivationView> {
    match body {
        Some(body) => derived(kind, body),
        None => None,
    }
}

/// A body, where the store holds one, by value.
pub open spec fn bytes_view(body: &Option<Vec<u8>>) -> Option<Seq<u8>> {
    match body {
        Some(body) => Some(body@),
        None => None,
    }
}

/// Derives from a body, where there is one.
fn derive_body(kind: &str, body: &Option<Vec<u8>>) -> (derivation: Option<PimdirDerivation>)
    ensures
        derivation.deep_view() == derivation_of(kind@, bytes_view(body)),
{
    match body {
        Some(body) => crate::summary::derive(kind, body.as_slice()),
        None => None,
    }
}

/// The key an add is filed under: the one it names, else the one its body
/// derives.
pub open spec fn key_of_add(
    link: Option<Text>,
    derivation: Option<DerivationView>,
) -> Option<Text> {
    match link {
        Some(link) => Some(link),
        None => match derivation {
            Some(derivation) => Some(derivation.link_id),
            None => None,
        },
    }
}

/// The key an add is filed under, which the owner looks up before it stages
/// the action; `None` for anything else, and for an add neither it nor its
/// body names.
pub fn add_key(kind: &str, action: &PimdirAction, body: &Option<Vec<u8>>) -> (key: Option<
    PimdirLinkId,
>)
    ensures
        key.deep_view() == match action@ {
            ActionView::Add { link_id, .. } => key_of_add(
                link_id,
                derivation_of(kind@, bytes_view(body)),
            ),
            _ => None,
        },
{
    match action {
        PimdirAction::Add { link_id, .. } => match link_id {
            Some(link) => Some(link.clone()),
            None => match derive_body(kind, body) {
                Some(derivation) => Some(derivation.link_id),
                None => None,
            },
        },
        _ => None,
    }
}

/// The link ids a copy or a move reads in its target, which the owner loads
/// before it stages the action: the identity it carries, and the one a
/// second copy of it would take.
pub fn target_links(link: &PimdirLinkId, row_id: i64) -> (links: Vec<PimdirLinkId>)
    ensures
        links.deep_view() == seq![link@, minted_key(link@, queue_handle(row_id))],
{
    let mut links: Vec<PimdirLinkId> = Vec::new();
    push_to(&mut links, link.clone());
    push_to(&mut links, link.minted(&handle_for_row(row_id)));
    assert(links.deep_view() =~= seq![link@, minted_key(link@, queue_handle(row_id))]);
    links
}

/// What staging an add comes to: a create under the key it is filed by,
/// unless there is no key, or a live item holds it.
pub open spec fn staged_add(
    collection: Text,
    row_id: i64,
    action: ActionView,
    derivation: Option<DerivationView>,
    live: bool,
) -> StagedView
    recommends
        action is Add,
{
    match action {
        ActionView::Add { link_id, flags, object, handle } => match key_of_add(
            link_id,
            derivation,
        ) {
            None => StagedView::Parked("add carries no link id and none derives from its body"@),
            Some(link) => if live {
                StagedView::Parked("link id already present: "@ + link)
            } else {
                StagedView::Writes(
                    seq![
                        WriteOpView::UpsertPlacement(
                            PlacementView {
                                collection,
                                handle: match handle {
                                    Some(handle) => handle,
                                    None => queue_handle(row_id),
                                },
                                link_id: Some(link),
                                object,
                                level: if object is Some {
                                    PimdirLevel::Full
                                } else {
                                    PimdirLevel::Probed
                                },
                                summary: match derivation {
                                    Some(derivation) => derivation.summary,
                                    None => None,
                                },
                                sort_key: match derivation {
                                    Some(derivation) => derivation.sort_key,
                                    None => Seq::empty(),
                                },
                                flags,
                                status: PimdirStatus::Created,
                                conflict_revision: None,
                                conflict_object: None,
                                base: None,
                                origin: None,
                            },
                        ),
                    ],
                )
            },
        },
        _ => StagedView::Skipped,
    }
}

/// The mutation an action names, on the placement its item is bound under;
/// `None` for an add, which reads none, and for an intent that is not the
/// store's. An update's body already sits in the blob store, indexed and
/// pinned at enqueue.
pub open spec fn mutation_of(
    action: ActionView,
    handle: Text,
    row_id: i64,
    derivation: Option<DerivationView>,
) -> Option<MutationView> {
    match action {
        ActionView::SetFlags { flags, .. } => Some(MutationView::SetFlags { handle, flags }),
        ActionView::Remove { .. } => Some(MutationView::Remove(handle)),
        ActionView::Move { to, .. } => Some(
            MutationView::Move { handle, target: to, placeholder: queue_handle(row_id) },
        ),
        ActionView::Copy { to, .. } => Some(
            MutationView::Copy { handle, target: to, placeholder: queue_handle(row_id) },
        ),
        ActionView::Update { object, .. } => Some(
            MutationView::Edit {
                handle,
                object: ObjectView { hash: object, size: 0 },
                body: Seq::empty(),
                summary: match derivation {
                    Some(derivation) => derivation.summary,
                    None => None,
                },
                sort_key: match derivation {
                    Some(derivation) => Some(derivation.sort_key),
                    None => None,
                },
            },
        ),
        _ => None,
    }
}

/// Writes without the objects among them.
pub open spec fn without_objects(ops: Seq<WriteOpView>) -> Seq<WriteOpView>
    decreases ops.len(),
{
    if ops.len() == 0 {
        Seq::empty()
    } else {
        let rest = without_objects(ops.drop_last());
        if ops.last() is StoreObject {
            rest
        } else {
            rest.push(ops.last())
        }
    }
}

/// What a mutation stages for the placements loaded of its collection and
/// of its target.
pub open spec fn staged_mutation(
    collection: Text,
    mutation: MutationView,
    placements: Seq<PlacementView>,
    target: Seq<PlacementView>,
) -> StagedView {
    let handle = read_handle(mutation)->0;
    match first_under(placements, handle) {
        None => StagedView::Parked(mutate_error_says(MutateErrorView::UnknownHandle(handle))),
        Some(source) => match source.link_id {
            None => StagedView::Parked(mutate_error_says(MutateErrorView::Probed(handle))),
            Some(hint) => StagedView::Writes(
                without_objects(
                    staged_writes(
                        collection,
                        mutation,
                        source,
                        match create_target_of(mutation) {
                            Some((_, placeholder)) => Some(
                                claimed_key(hint, placeholder, live_links(target)),
                            ),
                            None => None,
                        },
                    ),
                ),
            ),
        },
    }
}

/// The public id an action names its item by.
pub open spec fn seq_of(action: ActionView) -> i64 {
    match action {
        ActionView::SetFlags { seq, .. } => seq,
        ActionView::Remove { seq } => seq,
        ActionView::Move { seq, .. } => seq,
        ActionView::Copy { seq, .. } => seq,
        ActionView::Update { seq, .. } => seq,
        _ => 0,
    }
}

/// What staging one queued action comes to. An absent item is a remove's
/// success and parks anything else; a live item the source does not bind is
/// another source's, and skips.
pub open spec fn staged(
    source: Text,
    collection: Text,
    kind: Text,
    row_id: i64,
    action: ActionView,
    body: Option<Seq<u8>>,
    live: bool,
    item: Option<Text>,
    handle: Option<Text>,
    hub: HubView,
    target: HubView,
) -> StagedView {
    let derivation = derivation_of(kind, body);
    if action is Add {
        staged_add(collection, row_id, action, derivation, live)
    } else {
        match item {
            None => if action is Remove {
                StagedView::Writes(Seq::empty())
            } else {
                StagedView::Parked("unknown seq: "@ + signed_text(seq_of(action) as int))
            },
            Some(_) => match handle {
                None => StagedView::Skipped,
                Some(handle) => {
                    let mutation = mutation_of(action, handle, row_id, derivation)->0;
                    staged_mutation(
                        collection,
                        mutation,
                        projection(hub.items, collection, source, in_order(hub.items.dom())),
                        match create_target_of(mutation) {
                            Some((to, _)) => projection(
                                target.items,
                                to,
                                source,
                                in_order(target.items.dom()),
                            ),
                            None => Seq::empty(),
                        },
                    )
                },
            },
        }
    }
}

/// Stages an add.
fn stage_add(
    collection: &PimdirCollectionId,
    row_id: i64,
    action: &PimdirAction,
    derivation: Option<PimdirDerivation>,
    live: bool,
) -> (staged: PimdirStaged)
    requires
        action@ is Add,
    ensures
        staged@ == staged_add(collection@, row_id, action@, derivation.deep_view(), live),
{
    match action {
        PimdirAction::Add { link_id, flags, object, handle } => {
            let link = match link_id {
                Some(link) => link.clone(),
                None => match &derivation {
                    Some(derivation) => derivation.link_id.clone(),
                    None => {
                        return PimdirStaged::Parked(
                            "add carries no link id and none derives from its body".to_owned(),
                        );
                    },
                },
            };
            if live {
                let mut reason = "link id already present: ".to_owned();
                reason.append(link.as_str());
                return PimdirStaged::Parked(reason);
            }
            let (summary, sort_key) = match derivation {
                Some(derivation) => (derivation.summary, derivation.sort_key),
                None => (None, PimdirSortKey(String::new())),
            };
            let create = PimdirPlacement {
                collection: collection.clone(),
                handle: match handle {
                    Some(handle) => handle.clone(),
                    None => handle_for_row(row_id),
                },
                link_id: Some(link),
                object: object.clone(),
                level: match object {
                    Some(_) => PimdirLevel::Full,
                    None => PimdirLevel::Probed,
                },
                summary,
                sort_key,
                flags: flags.clone(),
                status: PimdirStatus::Created,
                conflict_revision: None,
                conflict_object: None,
                base: None,
                origin: None,
            };
            let mut ops: Vec<PimdirWriteOp> = Vec::new();
            push_to(&mut ops, PimdirWriteOp::UpsertPlacement(create));
            let staged = PimdirStaged::Writes(ops);
            assert(staged@->Writes_0 =~= staged_add(
                collection@,
                row_id,
                action@,
                derivation.deep_view(),
                live,
            )->Writes_0);
            staged
        },
        _ => PimdirStaged::Skipped,
    }
}

/// The mutation an action names.
fn mutation_for(
    action: &PimdirAction,
    handle: PimdirHandle,
    row_id: i64,
    derivation: Option<PimdirDerivation>,
) -> (mutation: Option<PimdirMutation>)
    ensures
        mutation.deep_view() == mutation_of(action@, handle@, row_id, derivation.deep_view()),
{
    match action {
        PimdirAction::SetFlags { flags, .. } => Some(
            PimdirMutation::SetFlags { handle, flags: flags.clone() },
        ),
        PimdirAction::Remove { .. } => Some(PimdirMutation::Remove(handle)),
        PimdirAction::Move { to, .. } => Some(
            PimdirMutation::Move {
                handle,
                target: to.clone(),
                placeholder: handle_for_row(row_id),
            },
        ),
        PimdirAction::Copy { to, .. } => Some(
            PimdirMutation::Copy {
                handle,
                target: to.clone(),
                placeholder: handle_for_row(row_id),
            },
        ),
        PimdirAction::Update { object, .. } => {
            let (summary, sort_key) = match derivation {
                Some(derivation) => (derivation.summary, Some(derivation.sort_key)),
                None => (None, None),
            };
            let body: Vec<u8> = Vec::new();
            assert(body@ =~= Seq::<u8>::empty());
            Some(
                PimdirMutation::Edit {
                    handle,
                    object: PimdirObject { hash: object.clone(), size: 0 },
                    body,
                    summary,
                    sort_key,
                },
            )
        },
        _ => None,
    }
}

/// Drops the objects among some writes.
fn drop_objects(ops: Vec<PimdirWriteOp>) -> (kept: Vec<PimdirWriteOp>)
    ensures
        kept.deep_view() == without_objects(ops.deep_view()),
{
    let mut kept: Vec<PimdirWriteOp> = Vec::new();
    let ghost all = ops.deep_view();
    let mut i: usize = 0;
    assert(kept.deep_view() =~= Seq::empty());
    while i < ops.len()
        invariant
            i <= ops.len(),
            all == ops.deep_view(),
            kept.deep_view() == without_objects(all.take(i as int)),
        decreases ops.len() - i,
    {
        proof {
            assert(all.take(i + 1).drop_last() =~= all.take(i as int));
            assert(all.take(i + 1).last() == ops@[i as int]@);
        }
        match &ops[i] {
            PimdirWriteOp::StoreObject { .. } => {},
            _ => push_to(&mut kept, ops[i].clone()),
        }
        i = i + 1;
    }
    assert(all.take(i as int) =~= all);
    kept
}

/// Runs a mutation over the placements loaded for it, up to the writes it
/// stages.
fn run_mutation(
    collection: &PimdirCollectionId,
    mutation: PimdirMutation,
    placements: Vec<PimdirPlacement>,
    target: Vec<PimdirPlacement>,
) -> (staged: PimdirStaged)
    requires
        !(mutation@ is Add),
    ensures
        staged@ == staged_mutation(
            collection@,
            mutation@,
            placements.deep_view(),
            target.deep_view(),
        ),
{
    let mut mutate = PimdirMutate::new(collection.clone(), mutation);
    let _ = mutate.resume(None);
    let mut state = mutate.resume(
        Some(PimdirArg::Load(PimdirLoaded { placements, checkpoint: None })),
    );
    let asks = match &state {
        PimdirCoroutineState::Yielded(PimdirYield::WantsLoad { .. }) => true,
        _ => false,
    };
    if asks {
        state =
        mutate.resume(
            Some(PimdirArg::Load(PimdirLoaded { placements: target, checkpoint: None })),
        );
    }
    match state {
        PimdirCoroutineState::Yielded(PimdirYield::WantsWrite(ops)) => PimdirStaged::Writes(
            drop_objects(ops),
        ),
        PimdirCoroutineState::Complete(Err(error)) => PimdirStaged::Parked(error.message()),
        _ => {
            assert(false);
            PimdirStaged::Skipped
        },
    }
}

/// The reason an action on an item that is not there parks with.
fn unknown_seq(seq: i64) -> (reason: String)
    ensures
        reason@ == "unknown seq: "@ + signed_text(seq as int),
{
    let mut reason = "unknown seq: ".to_owned();
    push_signed(&mut reason, seq);
    reason
}

/// Stages the writes one queued action folds into the store, inside the
/// drain transaction.
///
/// An add stages the created placement the engine's add stages, its summary
/// derived from the body the producer wrote. Every other kind resolves its
/// item to this source's placement and runs the mutate verb, so the staging
/// semantics stay the engine's. `body` is the body the action names, where
/// the store holds it; `live` whether a live item holds an add's key;
/// `item` the item its public id names; `handle` what this source binds it
/// under; `hub` the collection's hub narrowed to it, and `target` that of
/// the collection a copy or a move goes into.
pub fn stage_action(
    source: &PimdirSourceId,
    collection: &PimdirCollectionId,
    kind: &str,
    row_id: i64,
    action: &PimdirAction,
    body: &Option<Vec<u8>>,
    live: bool,
    item: &Option<PimdirLinkId>,
    handle: &Option<PimdirHandle>,
    hub: &PimdirHub,
    target: &PimdirHub,
) -> (staging: PimdirStaged)
    requires
        !(action@ is Unknown),
    ensures
        staging@ == staged(
            source@,
            collection@,
            kind@,
            row_id,
            action@,
            bytes_view(body),
            live,
            item.deep_view(),
            handle.deep_view(),
            hub@,
            target@,
        ),
{
    let derivation = derive_body(kind, body);
    let seq: i64 = match action {
        PimdirAction::Add { .. } => {
            return stage_add(collection, row_id, action, derivation, live);
        },
        PimdirAction::SetFlags { seq, .. }
        | PimdirAction::Move { seq, .. }
        | PimdirAction::Copy { seq, .. }
        | PimdirAction::Update { seq, .. }
        | PimdirAction::Remove { seq } => *seq,
        PimdirAction::Unknown { .. } => 0,
    };
    let removes = match action {
        PimdirAction::Remove { .. } => true,
        _ => false,
    };
    if item.is_none() {
        if removes {
            let staging = PimdirStaged::Writes(Vec::new());
            assert(staging@->Writes_0 =~= Seq::empty());
            return staging;
        }
        return PimdirStaged::Parked(unknown_seq(seq));
    }
    let bound = match handle {
        Some(handle) => handle.clone(),
        None => {
            return PimdirStaged::Skipped;
        },
    };
    match mutation_for(action, bound, row_id, derivation) {
        Some(mutation) => {
            let held = match &mutation {
                PimdirMutation::Copy { target: to, .. } | PimdirMutation::Move {
                    target: to,
                    ..
                } => target.project(to, source),
                _ => {
                    let none: Vec<PimdirPlacement> = Vec::new();
                    assert(none.deep_view() =~= Seq::empty());
                    none
                },
            };
            run_mutation(collection, mutation, hub.project(collection, source), held)
        },
        None => {
            assert(false);
            PimdirStaged::Skipped
        },
    }
}

/// What a drain does with a row before it opens a transaction: a payload
/// that does not decode parks, an intent that is not the store's is left
/// for the owner that recognises it.
pub open spec fn drain_step_of(row: QueueRowView) -> DrainStepView {
    match action_of(row.action, row.payload, json_fields(row.payload)) {
        Err(error) => DrainStepView::Park(error.message()),
        Ok(action) => if action is Unknown {
            DrainStepView::Skip
        } else {
            DrainStepView::Apply(action)
        },
    }
}

/// What a drain does with a decoded action, or with one that did not
/// decode.
pub fn judge_action(action: Result<PimdirAction, PimdirActionError>) -> (step: PimdirDrainStep)
    ensures
        step@ == match decoded_view(action) {
            Err(error) => DrainStepView::Park(error.message()),
            Ok(action) => if action is Unknown {
                DrainStepView::Skip
            } else {
                DrainStepView::Apply(action)
            },
        },
{
    match action {
        Err(error) => PimdirDrainStep::Park(error.message()),
        Ok(PimdirAction::Unknown { .. }) => PimdirDrainStep::Skip,
        Ok(action) => PimdirDrainStep::Apply(action),
    }
}

/// What a drain does with a row before it opens a transaction.
pub fn drain_step(row: &PimdirQueueRow) -> (step: PimdirDrainStep)
    ensures
        step@ == drain_step_of(row@),
{
    judge_action(action_from_payload(row.action.as_str(), row.payload.as_str()))
}

/// A result of applying an action, by value.
pub open spec fn outcome_view(result: Result<PimdirOutcome, PimdirError>) -> Result<
    OutcomeView,
    ErrorView,
> {
    match result {
        Ok(outcome) => Ok(outcome@),
        Err(error) => Err(error@),
    }
}

/// What becomes of a row after its transaction. A failure of the store
/// parks it; one of the environment bumps its attempts and stops the pass.
pub open spec fn verdict_on(result: Result<OutcomeView, ErrorView>) -> VerdictView {
    match result {
        Ok(OutcomeView::Applied) => VerdictView::Applied,
        Ok(OutcomeView::Skipped) => VerdictView::Skipped,
        Ok(OutcomeView::Parked(reason)) => VerdictView::Parked(reason),
        Err(error) => if error.retryable() {
            VerdictView::Stopped(error)
        } else {
            VerdictView::Parked(error.message())
        },
    }
}

/// What becomes of a row after its transaction.
pub fn verdict(result: Result<PimdirOutcome, PimdirError>) -> (verdict: PimdirVerdict)
    ensures
        verdict@ == verdict_on(outcome_view(result)),
{
    match result {
        Ok(PimdirOutcome::Applied) => PimdirVerdict::Applied,
        Ok(PimdirOutcome::Skipped) => PimdirVerdict::Skipped,
        Ok(PimdirOutcome::Parked(reason)) => PimdirVerdict::Parked(reason),
        Err(error) => if error.retryable() {
            PimdirVerdict::Stopped(error)
        } else {
            PimdirVerdict::Parked(error.message())
        },
    }
}

/// How many verdicts a drain pass came to, of each kind but the one that
/// stops it.
pub open spec fn counted(verdicts: Seq<VerdictView>) -> (nat, nat, nat)
    decreases verdicts.len(),
{
    if verdicts.len() == 0 {
        (0, 0, 0)
    } else {
        let (applied, parked, skipped) = counted(verdicts.drop_last());
        match verdicts.last() {
            VerdictView::Applied => (applied + 1, parked, skipped),
            VerdictView::Parked(_) => (applied, parked + 1, skipped),
            VerdictView::Skipped => (applied, parked, skipped + 1),
            VerdictView::Stopped(_) => (applied, parked, skipped),
        }
    }
}

/// Reports what a drain pass did.
pub fn drain_report(verdicts: &Vec<PimdirVerdict>) -> (report: PimdirDrainReport)
    ensures
        (report.applied as nat, report.parked as nat, report.skipped as nat) == counted(
            verdicts.deep_view(),
        ),
{
    let mut report = PimdirDrainReport::default();
    let ghost all = verdicts.deep_view();
    let mut i: usize = 0;
    while i < verdicts.len()
        invariant
            i <= verdicts.len(),
            all == verdicts.deep_view(),
            report.applied + report.parked + report.skipped <= i,
            (report.applied as nat, report.parked as nat, report.skipped as nat) == counted(
                all.take(i as int),
            ),
        decreases verdicts.len() - i,
    {
        proof {
            assert(all.take(i + 1).drop_last() =~= all.take(i as int));
            assert(all.take(i + 1).last() == verdicts@[i as int]@);
        }
        match &verdicts[i] {
            PimdirVerdict::Applied => {
                report.applied = report.applied + 1;
            },
            PimdirVerdict::Parked(_) => {
                report.parked = report.parked + 1;
            },
            PimdirVerdict::Skipped => {
                report.skipped = report.skipped + 1;
            },
            PimdirVerdict::Stopped(_) => {},
        }
        i = i + 1;
    }
    assert(all.take(i as int) =~= all);
    report
}

/// The rows that release the body a queue row pinned, once it is applied or
/// cancelled.
pub fn unpin(hash: &Option<String>) -> (rows: Vec<PimdirRowOp>)
    ensures
        rows.deep_view() == unpinned(at_most_one(hash.deep_view())),
{
    let mut rows: Vec<PimdirRowOp> = Vec::new();
    if let Some(hash) = hash {
        push_to(&mut rows, PimdirRowOp::AdjustRefcount { hash: hash.clone(), delta: -1 });
    }
    assert(rows.deep_view() =~= unpinned(at_most_one(hash.deep_view())));
    rows
}

/// A body is pinned from its enqueue to the end of its row, and no longer:
/// what the enqueue adds to its count, the end of the row takes back.
pub proof fn lemma_a_queued_body_is_pinned_until_its_row_goes(
    producer: Text,
    account: Option<Text>,
    collection: Text,
    action: ActionView,
    object: Option<ObjectView>,
    hash: Text,
)
    ensures
        ({
            let writes = enqueued(producer, account, collection, action, object);
            &&& moved_by(writes.before, hash) == 0
            &&& moved_by(writes.after, hash) == if action.object_hash() == Some(hash) {
                1int
            } else {
                0
            }
            &&& moved_by(writes.after, hash) + moved_by(
                unpinned(at_most_one(writes.row.object_hash)),
                hash,
            ) == 0
        }),
{
    reveal_with_fuel(moved_by, 3);
    let writes = enqueued(producer, account, collection, action, object);
    let back = unpinned(at_most_one(writes.row.object_hash));
    match object {
        Some(_) => {
            assert(writes.before.len() == 2);
            assert(writes.before.drop_last().len() == 1);
            assert(writes.before.drop_last().last() == writes.before[0]);
        },
        None => {
            assert(writes.before.len() == 1);
        },
    }
    match action.object_hash() {
        Some(named) => {
            assert(writes.after.len() == 1 && writes.after[0] == (RowOpView::AdjustRefcount {
                hash: named,
                delta: 1i64,
            }));
            assert(back.len() == 1 && back[0] == (RowOpView::AdjustRefcount {
                hash: named,
                delta: -1i64,
            }));
        },
        None => {
            assert(writes.after.len() == 0);
            assert(back.len() == 0);
        },
    }
}

proof fn lemma_found_under(placements: Seq<PlacementView>, handle: Text)
    ensures
        first_under(placements, handle) matches Some(found) ==> found.handle == handle
            && placements.contains(found),
    decreases placements.len(),
{
    if placements.len() > 0 {
        if placements[0].handle != handle {
            let rest = placements.drop_first();
            lemma_found_under(rest, handle);
            if let Some(found) = first_under(rest, handle) {
                let i = rest.index_of(found);
                assert(placements[i + 1] == found);
            }
        } else {
            assert(placements.contains(placements[0]));
        }
    }
}

proof fn lemma_a_projection_is_of_its_collection(hub: HubView, collection: Text, source: Text, i: int)
    requires
        0 <= i < projection(hub.items, collection, source, in_order(hub.items.dom())).len(),
    ensures
        projection(hub.items, collection, source, in_order(hub.items.dom()))[i].collection
            == collection,
{
    let links = in_order(hub.items.dom());
    if links.len() > 0 {
        lemma_a_projection_names_each_item_once(hub.items, collection, source, links, 0);
    }
}

/// The placement of a source that a queued action is staged on: what the
/// source reads in the collection under the handle it binds the item by.
pub open spec fn staged_on(hub: HubView, collection: Text, source: Text, handle: Text) -> Option<
    PlacementView,
> {
    first_under(projection(hub.items, collection, source, in_order(hub.items.dom())), handle)
}

proof fn lemma_staged_on(hub: HubView, collection: Text, source: Text, handle: Text)
    ensures
        staged_on(hub, collection, source, handle) matches Some(read) ==> read.handle == handle
            && read.collection == collection,
{
    let placements = projection(hub.items, collection, source, in_order(hub.items.dom()));
    lemma_found_under(placements, handle);
    if let Some(read) = first_under(placements, handle) {
        let i = placements.index_of(read);
        lemma_a_projection_is_of_its_collection(hub, collection, source, i);
    }
}

/// A queued copy writes nothing into the collection it copies from: it
/// stages one create in the collection it names, of what the source reads,
/// and no tombstone.
pub proof fn lemma_a_queued_copy_leaves_its_source(
    source: Text,
    collection: Text,
    kind: Text,
    row_id: i64,
    seq: i64,
    to: Text,
    body: Option<Seq<u8>>,
    live: bool,
    item: Text,
    handle: Text,
    hub: HubView,
    target: HubView,
)
    ensures
        ({
            let staging = staged(
                source,
                collection,
                kind,
                row_id,
                ActionView::Copy { seq, to },
                body,
                live,
                Some(item),
                Some(handle),
                hub,
                target,
            );
            let read = staged_on(hub, collection, source, handle);
            &&& staging is Writes <==> read is Some && read->0.link_id is Some
            &&& !(staging is Skipped)
            &&& staging matches StagedView::Writes(ops) ==> {
                &&& ops.len() == 1
                &&& ops[0] matches WriteOpView::UpsertPlacement(create) && {
                    &&& create.collection == to
                    &&& create.status == PimdirStatus::Created
                    &&& create.object == read->0.object
                    &&& create.flags == read->0.flags
                    &&& create.summary == read->0.summary
                    &&& create.sort_key == read->0.sort_key
                    &&& create.base is None
                    &&& create.origin matches Some(origin) && origin.collection == collection
                        && origin.handle == handle
                }
            }
        }),
{
    reveal_with_fuel(without_objects, 3);
    lemma_staged_on(hub, collection, source, handle);
}

/// A queued move stages a create in the collection it names and a tombstone
/// of the one it leaves, and nothing else: the create is the one a copy of
/// the same item stages.
pub proof fn lemma_a_queued_move_copies_and_removes(
    source: Text,
    collection: Text,
    kind: Text,
    row_id: i64,
    seq: i64,
    to: Text,
    body: Option<Seq<u8>>,
    live: bool,
    item: Text,
    handle: Text,
    hub: HubView,
    target: HubView,
)
    ensures
        ({
            let staging = staged(
                source,
                collection,
                kind,
                row_id,
                ActionView::Move { seq, to },
                body,
                live,
                Some(item),
                Some(handle),
                hub,
                target,
            );
            let copying = staged(
                source,
                collection,
                kind,
                row_id,
                ActionView::Copy { seq, to },
                body,
                live,
                Some(item),
                Some(handle),
                hub,
                target,
            );
            &&& staging is Writes <==> copying is Writes
            &&& staging matches StagedView::Writes(ops) ==> {
                &&& ops.len() == 2
                &&& ops[0] == copying->Writes_0[0]
                &&& ops[1] matches WriteOpView::UpsertPlacement(gone) && {
                    &&& gone.collection == collection
                    &&& gone.handle == handle
                    &&& gone.status == PimdirStatus::Tombstone
                    &&& gone.link_id == staged_on(hub, collection, source, handle)->0.link_id
                    &&& gone.base == staged_on(hub, collection, source, handle)->0.base
                    &&& gone.origin matches Some(origin) && origin.collection == to
                }
            }
        }),
{
    reveal_with_fuel(without_objects, 4);
    lemma_staged_on(hub, collection, source, handle);
    if let Some(read) = staged_on(hub, collection, source, handle) {
        if read.link_id is Some {
            let mutation = MutationView::Move {
                handle,
                target: to,
                placeholder: queue_handle(row_id),
            };
            let key = Some(
                claimed_key(
                    read.link_id->0,
                    queue_handle(row_id),
                    live_links(
                        projection(target.items, to, source, in_order(target.items.dom())),
                    ),
                ),
            );
            let ops = staged_writes(collection, mutation, read, key);
            assert(ops.drop_last() =~= seq![ops[0]]);
            assert(ops.drop_last().drop_last() =~= Seq::empty());
            let copies = staged_writes(
                collection,
                MutationView::Copy { handle, target: to, placeholder: queue_handle(row_id) },
                read,
                key,
            );
            assert(copies.drop_last() =~= Seq::empty());
        }
    }
}

/// A queued remove stages a tombstone of the one placement it names, which
/// is otherwise as the source reads it.
pub proof fn lemma_a_queued_remove_marks_its_placement(
    source: Text,
    collection: Text,
    kind: Text,
    row_id: i64,
    seq: i64,
    body: Option<Seq<u8>>,
    live: bool,
    item: Text,
    handle: Text,
    hub: HubView,
    target: HubView,
)
    ensures
        ({
            let staging = staged(
                source,
                collection,
                kind,
                row_id,
                ActionView::Remove { seq },
                body,
                live,
                Some(item),
                Some(handle),
                hub,
                target,
            );
            let read = staged_on(hub, collection, source, handle);
            &&& staging is Writes <==> read is Some && read->0.link_id is Some
            &&& staging matches StagedView::Writes(ops) ==> {
                &&& ops.len() == 1
                &&& ops[0] matches WriteOpView::UpsertPlacement(gone) && {
                    &&& gone.collection == collection
                    &&& gone.handle == handle
                    &&& gone.status == PimdirStatus::Tombstone
                    &&& gone == (PlacementView { status: gone.status, ..read->0 })
                }
            }
        }),
{
    reveal_with_fuel(without_objects, 3);
    lemma_staged_on(hub, collection, source, handle);
}

/// A queued flag set stages the placement it names with those flags: in sync
/// it then owes a push, and nothing else of it changes.
pub proof fn lemma_a_queued_flag_set_sets_the_flags(
    source: Text,
    collection: Text,
    kind: Text,
    row_id: i64,
    seq: i64,
    flags: Option<Set<Text>>,
    body: Option<Seq<u8>>,
    live: bool,
    item: Text,
    handle: Text,
    hub: HubView,
    target: HubView,
)
    ensures
        ({
            let staging = staged(
                source,
                collection,
                kind,
                row_id,
                ActionView::SetFlags { seq, flags },
                body,
                live,
                Some(item),
                Some(handle),
                hub,
                target,
            );
            let read = staged_on(hub, collection, source, handle);
            &&& staging is Writes <==> read is Some && read->0.link_id is Some
            &&& staging matches StagedView::Writes(ops) ==> {
                &&& ops.len() == 1
                &&& ops[0] matches WriteOpView::UpsertPlacement(after) && {
                    &&& after.collection == collection
                    &&& after.handle == handle
                    &&& after.flags == flags
                    &&& after.status == (if read->0.status == PimdirStatus::Clean {
                        PimdirStatus::Dirty
                    } else {
                        read->0.status
                    })
                    &&& after == (PlacementView {
                        flags: after.flags,
                        status: after.status,
                        ..read->0
                    })
                }
            }
        }),
{
    reveal_with_fuel(without_objects, 3);
    lemma_staged_on(hub, collection, source, handle);
}

/// A queued update points the placement it names at the body it names, and
/// writes no object: the body was indexed when it was queued. What the body
/// derives replaces the summary and the sort key; a body that derives
/// nothing leaves them.
pub proof fn lemma_a_queued_update_points_at_its_body(
    source: Text,
    collection: Text,
    kind: Text,
    row_id: i64,
    seq: i64,
    object: Text,
    body: Option<Seq<u8>>,
    live: bool,
    item: Text,
    handle: Text,
    hub: HubView,
    target: HubView,
)
    ensures
        ({
            let staging = staged(
                source,
                collection,
                kind,
                row_id,
                ActionView::Update { seq, object },
                body,
                live,
                Some(item),
                Some(handle),
                hub,
                target,
            );
            let read = staged_on(hub, collection, source, handle);
            let said = if body is Some {
                derived(kind, body->0)
            } else {
                None
            };
            &&& staging is Writes <==> read is Some && read->0.link_id is Some
            &&& staging matches StagedView::Writes(ops) ==> {
                &&& ops.len() == 1
                &&& ops[0] matches WriteOpView::UpsertPlacement(after) && {
                    &&& after.collection == collection
                    &&& after.handle == handle
                    &&& after.link_id == read->0.link_id
                    &&& after.flags == read->0.flags
                    &&& after.object == Some(object)
                    &&& after.level == PimdirLevel::Full
                    &&& (said is Some ==> after.sort_key == said->0.sort_key)
                    &&& (said is None ==> after.sort_key == read->0.sort_key && after.summary
                        == read->0.summary)
                    &&& (said is Some && said->0.summary is Some ==> after.summary
                        == said->0.summary)
                    &&& (read->0.base is Some && read->0.base->0.object == Some(object)
                        && read->0.conflict_revision is None ==> after.status == read->0.status)
                    &&& (read->0.status != PimdirStatus::Created && (read->0.base is None
                        || read->0.base->0.object != Some(object)) ==> after.status
                        == PimdirStatus::Dirty)
                }
            }
        }),
{
    reveal_with_fuel(without_objects, 4);
    lemma_staged_on(hub, collection, source, handle);
    if let Some(read) = staged_on(hub, collection, source, handle) {
        let mutation = mutation_of(
            ActionView::Update { seq, object },
            handle,
            row_id,
            derivation_of(kind, body),
        )->0;
        let ops = staged_writes(collection, mutation, read, None);
        assert(ops.drop_last() =~= seq![ops[0]]);
        assert(ops.drop_last().drop_last() =~= Seq::empty());
    }
}

/// A queued add creates the item it describes, in its own collection and
/// under the key it names or else the one its body derives; it parks where
/// there is no key and where a live item holds it.
pub proof fn lemma_a_queued_add_creates_its_item(
    source: Text,
    collection: Text,
    kind: Text,
    row_id: i64,
    link: Option<Text>,
    flags: Option<Set<Text>>,
    object: Option<Text>,
    handle: Option<Text>,
    body: Option<Seq<u8>>,
    live: bool,
    item: Option<Text>,
    bound: Option<Text>,
    hub: HubView,
    target: HubView,
)
    ensures
        ({
            let staging = staged(
                source,
                collection,
                kind,
                row_id,
                ActionView::Add { link_id: link, flags, object, handle },
                body,
                live,
                item,
                bound,
                hub,
                target,
            );
            let said = if body is Some {
                derived(kind, body->0)
            } else {
                None
            };
            &&& link is None && said is None ==> staging is Parked
            &&& live ==> staging is Parked
            &&& !live && (link is Some || said is Some) ==> staging is Writes
            &&& staging matches StagedView::Writes(ops) ==> {
                &&& ops.len() == 1
                &&& ops[0] matches WriteOpView::UpsertPlacement(create) && {
                    &&& create.collection == collection
                    &&& create.status == PimdirStatus::Created
                    &&& (link is Some ==> create.link_id == link)
                    &&& (link is None ==> create.link_id == Some(said->0.link_id))
                    &&& (handle matches Some(handle) ==> create.handle == handle)
                    &&& create.object == object
                    &&& create.flags == flags
                    &&& (object is Some ==> create.level == PimdirLevel::Full)
                    &&& (object is None ==> create.level == PimdirLevel::Probed)
                    &&& (said matches Some(said) ==> create.summary == said.summary
                        && create.sort_key == said.sort_key)
                    &&& create.base is None && create.origin is None
                    &&& create.conflict_revision is None
                }
            }
        }),
{
}

/// An action on an item that is not there is done where it is a remove and
/// parks where it is anything else; one on an item this source does not
/// bind is left to the source that does.
pub proof fn lemma_an_action_on_no_item_of_the_source(
    source: Text,
    collection: Text,
    kind: Text,
    row_id: i64,
    action: ActionView,
    body: Option<Seq<u8>>,
    live: bool,
    item: Option<Text>,
    handle: Option<Text>,
    hub: HubView,
    target: HubView,
)
    requires
        !(action is Add),
    ensures
        ({
            let staging = staged(
                source,
                collection,
                kind,
                row_id,
                action,
                body,
                live,
                item,
                handle,
                hub,
                target,
            );
            &&& item is None && action is Remove ==> staging == StagedView::Writes(Seq::empty())
            &&& item is None && !(action is Remove) ==> staging is Parked
            &&& item is Some && handle is None ==> staging is Skipped
        }),
{
}

/// Two queue rows never stage a create under one handle.
pub proof fn lemma_a_queue_row_names_its_own_handle(a: i64, b: i64)
    requires
        queue_handle(a) == queue_handle(b),
    ensures
        a == b,
{
    let head = "queue-"@;
    let (x, y) = (signed_text(a as int), signed_text(b as int));
    assert((head + x).skip(head.len() as int) =~= x);
    assert((head + y).skip(head.len() as int) =~= y);
    crate::codec::lemma_a_number_is_its_spelling(a as int, b as int);
}

/// A row that decodes keeps what it was appended with, and is what the
/// producer sent where a producer sent it.
pub proof fn lemma_a_decoded_row_keeps_its_place(row: QueueRowView)
    ensures
        decoded(row) matches Ok(pending) ==> {
            &&& pending.id == row.id
            &&& pending.created_at == row.created_at
            &&& pending.producer == row.producer
            &&& pending.attempts == row.attempts
        },
        decoded(row) is Err <==> drain_step_of(row) is Park,
        decoded(row) matches Ok(pending) ==> (pending.action is Unknown <==> drain_step_of(
            row,
        ) is Skip),
        decoded(row) matches Ok(pending) ==> (!(pending.action is Unknown) ==> drain_step_of(row)
            == DrainStepView::Apply(pending.action)),
{
}

/// A strict read is every row in turn, or fails where one does not decode.
pub proof fn lemma_a_strict_read_is_every_row(rows: Seq<QueueRowView>, i: int)
    requires
        0 <= i < rows.len(),
    ensures
        all_decoded(rows) matches Ok(actions) ==> actions.len() == rows.len() && decoded(rows[i])
            == Ok::<PendingActionView, ActionErrorView>(actions[i]),
        decoded(rows[i]) is Err ==> all_decoded(rows) is Err,
    decreases rows.len(),
{
    let rest = rows.drop_last();
    if rest.len() > 0 {
        lemma_a_strict_read_is_every_row(
            rest,
            if i < rest.len() {
                i
            } else {
                0
            },
        );
    }
    if i < rest.len() {
        assert(rest[i] == rows[i]);
    } else {
        assert(rows[i] == rows.last());
        assert(rest.len() == 0 ==> all_decoded(rest) == Ok::<Seq<PendingActionView>, ActionErrorView>(
            Seq::empty(),
        ));
    }
}

/// An enqueue indexes the body it was handed under its own hash and size,
/// and appends the action to the collection's queue as the producer's.
pub proof fn lemma_an_enqueue_appends_its_action(
    producer: Text,
    account: Option<Text>,
    collection: Text,
    action: ActionView,
    object: Option<ObjectView>,
)
    ensures
        ({
            let writes = enqueued(producer, account, collection, action, object);
            &&& writes.row.producer == producer
            &&& writes.row.collection == collection
            &&& writes.row.action == action.kind()
            &&& writes.row.payload == payload_text(action)
            &&& writes.before[0] == (RowOpView::EnsureCollection { collection, account })
            &&& object is None ==> writes.before.len() == 1
            &&& object matches Some(object) ==> writes.before.len() == 2 && (writes.before[1]
                matches RowOpView::StoreObject { hash, size, body } && hash == object.hash
                && body is None && (object.size <= i64::MAX ==> size == object.size))
        }),
{
}

/// A failure of the environment stops a pass and keeps the row; one of the
/// store parks it; and what was applied, skipped or parked is told so.
pub proof fn lemma_a_verdict_follows_what_happened(result: Result<OutcomeView, ErrorView>)
    ensures
        result == Ok::<OutcomeView, ErrorView>(OutcomeView::Applied) <==> verdict_on(
            result,
        ) is Applied,
        result == Ok::<OutcomeView, ErrorView>(OutcomeView::Skipped) <==> verdict_on(
            result,
        ) is Skipped,
        result matches Ok(OutcomeView::Parked(reason)) ==> verdict_on(result)
            == VerdictView::Parked(reason),
        result matches Err(error) ==> (error is Busy || error is Io ==> verdict_on(result)
            == VerdictView::Stopped(error)),
        result matches Err(error) ==> (error matches ErrorView::Sql { busy, .. } ==> (busy
            <==> verdict_on(result) is Stopped)),
        result matches Err(error) ==> (!(error is Busy) && !(error is Io) && !(error is Sql)
            ==> verdict_on(result) is Parked),
{
}

/// A report counts each verdict of a pass once, under its kind.
pub proof fn lemma_a_report_counts_every_verdict(verdicts: Seq<VerdictView>)
    ensures
        counted(verdicts).0 == verdicts.filter(|verdict: VerdictView| verdict is Applied).len(),
        counted(verdicts).1 == verdicts.filter(|verdict: VerdictView| verdict is Parked).len(),
        counted(verdicts).2 == verdicts.filter(|verdict: VerdictView| verdict is Skipped).len(),
    decreases verdicts.len(),
{
    reveal(Seq::filter);
    if verdicts.len() > 0 {
        lemma_a_report_counts_every_verdict(verdicts.drop_last());
    }
}

} // verus!
