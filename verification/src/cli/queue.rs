//! # The `queue` verb group
//!
//! What is waiting to be applied, and what gave up.

use crate::cli::collection::signed;
use crate::cli::{dashed, join, joined, or_dash};
use crate::client::producer::{
    ParkedActionView, PendingActionView, PimdirParkedAction, PimdirPendingAction,
};
use crate::codec::{push_signed, signed_text, ActionView, PimdirAction};
use crate::list::push_to;
use crate::placement::PimdirFlags;
use crate::summary::as_borrowed;
use crate::text::Text;
use crate::text_map::in_order;
use vstd::prelude::*;
use vstd::string::*;

verus! {

/// One queued action as the listing prints it.
#[derive(Debug, PartialEq, Eq)]
pub struct QueueRow {
    /// The row's append id.
    pub id: i64,
    /// The enqueue timestamp.
    pub created_at: String,
    /// The process that enqueued it.
    pub producer: String,
    /// The collection it targets.
    pub collection: String,
    /// The action kind.
    pub kind: String,
    /// A content-free summary, the raw payload for a parked row.
    pub summary: String,
    /// Apply attempts so far.
    pub attempts: i64,
    /// The failure that parked the row, when parked.
    pub error: Option<String>,
}

/// What a [`QueueRow`] says, by value.
#[verifier::ext_equal]
pub struct QueueRowView {
    pub id: i64,
    pub created_at: Text,
    pub producer: Text,
    pub collection: Text,
    pub kind: Text,
    pub summary: Text,
    pub attempts: i64,
    pub error: Option<Text>,
}

impl View for QueueRow {
    type V = QueueRowView;

    open spec fn view(&self) -> QueueRowView {
        QueueRowView {
            id: self.id,
            created_at: self.created_at@,
            producer: self.producer@,
            collection: self.collection@,
            kind: self.kind@,
            summary: self.summary@,
            attempts: self.attempts,
            error: self.error.deep_view(),
        }
    }
}

impl DeepView for QueueRow {
    type V = QueueRowView;

    open spec fn deep_view(&self) -> QueueRowView {
        self@
    }
}

impl Clone for QueueRow {
    fn clone(&self) -> (copy: Self)
        ensures
            copy@ == self@,
    {
        QueueRow {
            id: self.id,
            created_at: self.created_at.clone(),
            producer: self.producer.clone(),
            collection: self.collection.clone(),
            kind: self.kind.clone(),
            summary: self.summary.clone(),
            attempts: self.attempts,
            error: self.error.clone(),
        }
    }
}

/// What reading the pending actions of one collection gave: `None` where a
/// payload did not decode.
#[derive(Debug, PartialEq, Eq)]
pub struct PimdirQueueRead {
    /// The collection.
    pub collection: String,
    /// Its actions.
    pub actions: Option<Vec<PimdirPendingAction>>,
}

/// What a [`PimdirQueueRead`] says, by value.
#[verifier::ext_equal]
pub struct QueueReadView {
    pub collection: Text,
    pub actions: Option<Seq<PendingActionView>>,
}

impl View for PimdirQueueRead {
    type V = QueueReadView;

    open spec fn view(&self) -> QueueReadView {
        QueueReadView {
            collection: self.collection@,
            actions: self.actions.deep_view(),
        }
    }
}

impl DeepView for PimdirQueueRead {
    type V = QueueReadView;

    open spec fn deep_view(&self) -> QueueReadView {
        self@
    }
}

/// The `queue list` output.
#[derive(Debug, PartialEq, Eq)]
pub struct QueueOutput {
    /// Whether the listing shows parked actions.
    pub parked: bool,
    /// The actions.
    pub actions: Vec<QueueRow>,
    /// Collections whose pending payloads could not be decoded, so their rows
    /// are missing from the listing.
    pub undecodable: Vec<String>,
}

/// What a [`QueueOutput`] says, by value.
#[verifier::ext_equal]
pub struct QueueOutputView {
    pub parked: bool,
    pub actions: Seq<QueueRowView>,
    pub undecodable: Seq<Text>,
}

impl View for QueueOutput {
    type V = QueueOutputView;

    open spec fn view(&self) -> QueueOutputView {
        QueueOutputView {
            parked: self.parked,
            actions: self.actions.deep_view(),
            undecodable: self.undecodable.deep_view(),
        }
    }
}

impl DeepView for QueueOutput {
    type V = QueueOutputView;

    open spec fn deep_view(&self) -> QueueOutputView {
        self@
    }
}

/// The flags a set holds, in order.
pub open spec fn flags_of(flags: Option<Set<Text>>) -> Seq<Text> {
    match flags {
        Some(flags) => in_order(flags),
        None => Seq::empty(),
    }
}

/// A one-line, content-free summary of an action: ids, hashes and flags,
/// never what the item says. An owner-defined intent prints its payload
/// verbatim, since only its owner knows the shape.
pub open spec fn action_summary(action: ActionView) -> Text {
    match action {
        ActionView::Add { link_id, object, .. } => {
            let link = "link "@ + match link_id {
                Some(link) => link,
                None => "(from object)"@,
            };
            match object {
                Some(hash) => link + ", object "@ + hash,
                None => link,
            }
        },
        ActionView::SetFlags { seq, flags } => "seq "@ + signed_text(seq as int) + " -> ["@
            + joined(flags_of(flags), " "@) + "]"@,
        ActionView::Remove { seq } => "seq "@ + signed_text(seq as int),
        ActionView::Move { seq, to } => "seq "@ + signed_text(seq as int) + " -> "@ + to,
        ActionView::Copy { seq, to } => "seq "@ + signed_text(seq as int) + " -> "@ + to,
        ActionView::Update { seq, object } => "seq "@ + signed_text(seq as int) + ", object "@
            + object,
        ActionView::Unknown { payload, .. } => payload,
    }
}

/// The flags a set holds, in order.
pub(crate) fn list_flags(flags: &PimdirFlags) -> (list: Vec<String>)
    ensures
        list.deep_view() == flags_of(flags@),
{
    let mut list: Vec<String> = Vec::new();
    assert(list.deep_view() =~= Seq::empty());
    if let Some(set) = flags.known() {
        let n: usize = set.len();
        let ghost all = set.list();
        let mut i: usize = 0;
        assert(all.take(0) =~= Seq::empty());
        while i < n
            invariant
                i <= n,
                n == all.len(),
                all == set.list(),
                list.deep_view() == all.take(i as int),
            decreases n - i,
        {
            push_to(&mut list, set.at(i).clone());
            assert(list.deep_view() =~= all.take(i + 1));
            i = i + 1;
        }
        assert(all.take(i as int) =~= all);
    }
    list
}

/// The start of a summary: the item it is about.
fn about(seq: i64) -> (text: String)
    ensures
        text@ == "seq "@ + signed_text(seq as int),
{
    let mut text = "seq ".to_owned();
    push_signed(&mut text, seq);
    text
}

/// Summarises an action in one content-free line.
pub fn summary(action: &PimdirAction) -> (text: String)
    ensures
        text@ == action_summary(action@),
{
    match action {
        PimdirAction::Add { link_id, object, .. } => {
            let mut text = "link ".to_owned();
            match link_id {
                Some(link) => text.append(link.as_str()),
                None => text.append("(from object)"),
            }
            if let Some(hash) = object {
                text.append(", object ");
                text.append(hash.as_str());
            }
            text
        },
        PimdirAction::SetFlags { seq, flags } => {
            let mut text = about(*seq);
            text.append(" -> [");
            text.append(join(&list_flags(flags), " ").as_str());
            text.append("]");
            text
        },
        PimdirAction::Remove { seq } => about(*seq),
        PimdirAction::Move { seq, to } | PimdirAction::Copy { seq, to } => {
            let mut text = about(*seq);
            text.append(" -> ");
            text.append(to.as_str());
            text
        },
        PimdirAction::Update { seq, object } => {
            let mut text = about(*seq);
            text.append(", object ");
            text.append(object.as_str());
            text
        },
        PimdirAction::Unknown { payload, .. } => payload.clone(),
    }
}

/// A pending action's row.
pub open spec fn pending_row(collection: Text, action: PendingActionView) -> QueueRowView {
    QueueRowView {
        id: action.id,
        created_at: action.created_at,
        producer: action.producer,
        collection,
        kind: action.action.kind(),
        summary: action_summary(action.action),
        attempts: action.attempts,
        error: None,
    }
}

/// A parked action's row.
pub open spec fn parked_row(action: ParkedActionView) -> QueueRowView {
    QueueRowView {
        id: action.id,
        created_at: action.created_at,
        producer: action.producer,
        collection: action.collection,
        kind: action.action,
        summary: action.payload,
        attempts: action.attempts,
        error: Some(action.error),
    }
}

/// A pending action's row.
fn row_of_pending(collection: &str, action: &PimdirPendingAction) -> (row: QueueRow)
    ensures
        row@ == pending_row(collection@, action@),
{
    QueueRow {
        id: action.id,
        created_at: action.created_at.clone(),
        producer: action.producer.clone(),
        collection: collection.to_owned(),
        kind: action.action.kind().to_owned(),
        summary: summary(&action.action),
        attempts: action.attempts,
        error: None,
    }
}

/// A parked action's row.
fn row_of_parked(action: &PimdirParkedAction) -> (row: QueueRow)
    ensures
        row@ == parked_row(action@),
{
    QueueRow {
        id: action.id,
        created_at: action.created_at.clone(),
        producer: action.producer.clone(),
        collection: action.collection.clone(),
        kind: action.action.clone(),
        summary: action.payload.clone(),
        attempts: action.attempts,
        error: Some(action.error.clone()),
    }
}

/// The rows of parked actions.
fn parked_rows(list: &Vec<PimdirParkedAction>) -> (out: Vec<QueueRow>)
    ensures
        out.deep_view() == list.deep_view().map_values(|x: ParkedActionView| parked_row(x)),
{
    let ghost all = list.deep_view();
    let ghost told = |x: ParkedActionView| parked_row(x);
    let mut out: Vec<QueueRow> = Vec::new();
    let mut i: usize = 0;
    assert(out.deep_view() =~= all.take(0).map_values(told));
    while i < list.len()
        invariant
            i <= list.len(),
            all == list.deep_view(),
            told == (|x: ParkedActionView| parked_row(x)),
            out.deep_view() == all.take(i as int).map_values(told),
        decreases list.len() - i,
    {
        assert(all[i as int] == list@[i as int].deep_view());
        push_to(&mut out, row_of_parked(&list[i]));
        assert(out.deep_view() =~= all.take(i + 1).map_values(told));
        i = i + 1;
    }
    assert(all.take(i as int) =~= all);
    out
}

/// The rows of pending actions.
fn pending_rows(list: &Vec<PimdirPendingAction>, collection: &str) -> (out: Vec<QueueRow>)
    ensures
        out.deep_view() == list.deep_view().map_values(|x: PendingActionView| pending_row(collection@, x)),
{
    let ghost all = list.deep_view();
    let ghost told = |x: PendingActionView| pending_row(collection@, x);
    let mut out: Vec<QueueRow> = Vec::new();
    let mut i: usize = 0;
    assert(out.deep_view() =~= all.take(0).map_values(told));
    while i < list.len()
        invariant
            i <= list.len(),
            all == list.deep_view(),
            told == (|x: PendingActionView| pending_row(collection@, x)),
            out.deep_view() == all.take(i as int).map_values(told),
        decreases list.len() - i,
    {
        assert(all[i as int] == list@[i as int].deep_view());
        push_to(&mut out, row_of_pending(collection, &list[i]));
        assert(out.deep_view() =~= all.take(i + 1).map_values(told));
        i = i + 1;
    }
    assert(all.take(i as int) =~= all);
    out
}

/// Rows by append id, one more placed.
pub open spec fn placed_by_id(rows: Seq<QueueRowView>, row: QueueRowView) -> Seq<QueueRowView>
    decreases rows.len(),
{
    if rows.len() > 0 && row.id < rows.last().id {
        placed_by_id(rows.drop_last(), row).push(rows.last())
    } else {
        rows.push(row)
    }
}

/// Rows in order of their append ids.
pub open spec fn by_id(rows: Seq<QueueRowView>) -> Seq<QueueRowView>
    decreases rows.len(),
{
    if rows.len() == 0 {
        Seq::empty()
    } else {
        placed_by_id(by_id(rows.drop_last()), rows.last())
    }
}

proof fn lemma_place_by_id(rows: Seq<QueueRowView>, row: QueueRowView, at: int)
    requires
        0 <= at <= rows.len(),
        forall|j: int| at <= j < rows.len() ==> row.id < (#[trigger] rows[j]).id,
        at > 0 ==> row.id >= rows[at - 1].id,
    ensures
        placed_by_id(rows, row) == rows.insert(at, row),
    decreases rows.len(),
{
    if rows.len() > at {
        let rest = rows.drop_last();
        assert forall|j: int| at <= j < rest.len() implies row.id < (#[trigger] rest[j]).id by {
            assert(rest[j] == rows[j]);
        }
        assert(row.id < rows[rows.len() - 1].id);
        lemma_place_by_id(rest, row, at);
        assert(rest.insert(at, row).push(rows.last()) =~= rows.insert(at, row));
    } else {
        assert(rows.push(row) =~= rows.insert(at, row));
    }
}

/// Puts rows in order of their append ids.
fn sort_by_id(rows: Vec<QueueRow>) -> (sorted: Vec<QueueRow>)
    ensures
        sorted.deep_view() == by_id(rows.deep_view()),
{
    let ghost all = rows.deep_view();
    let mut sorted: Vec<QueueRow> = Vec::new();
    let mut i: usize = 0;
    assert(sorted.deep_view() =~= Seq::empty());
    while i < rows.len()
        invariant
            i <= rows.len(),
            all == rows.deep_view(),
            sorted.deep_view() == by_id(all.take(i as int)),
        decreases rows.len() - i,
    {
        let ghost before = sorted.deep_view();
        let row = rows[i].clone();
        proof {
            assert(all.take(i + 1).drop_last() =~= all.take(i as int));
            assert(all.take(i + 1).last() == row@);
        }
        let mut at: usize = sorted.len();
        while at > 0 && row.id < sorted[at - 1].id
            invariant
                at <= sorted.len(),
                sorted.deep_view() == before,
                forall|j: int| at <= j < before.len() ==> row@.id < (#[trigger] before[j]).id,
            decreases at,
        {
            assert(before[at - 1] == sorted@[at - 1]@);
            at = at - 1;
        }
        proof {
            if at > 0 {
                assert(before[at - 1] == sorted@[at - 1]@);
            }
            lemma_place_by_id(before, row@, at as int);
        }
        sorted.insert(at, row);
        assert(sorted.deep_view() =~= before.insert(at as int, row@));
        i = i + 1;
    }
    assert(all.take(i as int) =~= all);
    sorted
}

/// The rows of every collection that decodes.
pub open spec fn listed(reads: Seq<QueueReadView>) -> Seq<QueueRowView>
    decreases reads.len(),
{
    if reads.len() == 0 {
        Seq::empty()
    } else {
        let rest = listed(reads.drop_last());
        let read = reads.last();
        match read.actions {
            Some(actions) => rest + actions.map_values(
                |x: PendingActionView| pending_row(read.collection, x),
            ),
            None => rest,
        }
    }
}

/// The collections that do not.
pub open spec fn unlisted(reads: Seq<QueueReadView>) -> Seq<Text>
    decreases reads.len(),
{
    if reads.len() == 0 {
        Seq::empty()
    } else {
        let rest = unlisted(reads.drop_last());
        if reads.last().actions is None {
            rest.push(reads.last().collection)
        } else {
            rest
        }
    }
}

/// The listing's header.
pub open spec fn queue_header(parked: bool) -> Seq<Text> {
    let own = seq!["ID"@, "CREATED"@, "PRODUCER"@, "COLLECTION"@, "ACTION"@, "TARGET"@, "TRIES"@];
    if parked {
        own.push("ERROR"@)
    } else {
        own
    }
}

/// A row's cells.
pub open spec fn queue_cells(row: QueueRowView, parked: bool) -> Seq<Text> {
    let own = seq![
        signed_text(row.id as int),
        row.created_at,
        row.producer,
        row.collection,
        row.kind,
        row.summary,
        signed_text(row.attempts as int),
    ];
    if parked {
        own.push(dashed(row.error))
    } else {
        own
    }
}

/// The listing's header.
fn header_cells(parked: bool) -> (cells: Vec<String>)
    ensures
        cells.deep_view() == queue_header(parked),
{
    let mut cells: Vec<String> = Vec::new();
    push_to(&mut cells, "ID".to_owned());
    push_to(&mut cells, "CREATED".to_owned());
    push_to(&mut cells, "PRODUCER".to_owned());
    push_to(&mut cells, "COLLECTION".to_owned());
    push_to(&mut cells, "ACTION".to_owned());
    push_to(&mut cells, "TARGET".to_owned());
    push_to(&mut cells, "TRIES".to_owned());
    if parked {
        push_to(&mut cells, "ERROR".to_owned());
    }
    assert(cells.deep_view() =~= queue_header(parked));
    cells
}

/// A row's cells.
fn row_cells(row: &QueueRow, parked: bool) -> (cells: Vec<String>)
    ensures
        cells.deep_view() == queue_cells(row@, parked),
{
    let mut cells: Vec<String> = Vec::new();
    push_to(&mut cells, signed(row.id));
    push_to(&mut cells, row.created_at.clone());
    push_to(&mut cells, row.producer.clone());
    push_to(&mut cells, row.collection.clone());
    push_to(&mut cells, row.kind.clone());
    push_to(&mut cells, row.summary.clone());
    push_to(&mut cells, signed(row.attempts));
    if parked {
        push_to(&mut cells, or_dash(as_borrowed(&row.error)).to_owned());
    }
    assert(cells.deep_view() =~= queue_cells(row@, parked));
    cells
}

/// Every row's cells.
fn all_cells(list: &Vec<QueueRow>, parked: bool) -> (out: Vec<Vec<String>>)
    ensures
        out.deep_view() == list.deep_view().map_values(|x: QueueRowView| queue_cells(x, parked)),
{
    let ghost all = list.deep_view();
    let ghost told = |x: QueueRowView| queue_cells(x, parked);
    let mut out: Vec<Vec<String>> = Vec::new();
    let mut i: usize = 0;
    assert(out.deep_view() =~= all.take(0).map_values(told));
    while i < list.len()
        invariant
            i <= list.len(),
            all == list.deep_view(),
            told == (|x: QueueRowView| queue_cells(x, parked)),
            out.deep_view() == all.take(i as int).map_values(told),
        decreases list.len() - i,
    {
        assert(all[i as int] == list@[i as int].deep_view());
        push_to(&mut out, row_cells(&list[i], parked));
        assert(out.deep_view() =~= all.take(i + 1).map_values(told));
        i = i + 1;
    }
    assert(all.take(i as int) =~= all);
    out
}

/// What is said of a collection left out of the listing.
pub open spec fn undecodable_line(collection: Text) -> Text {
    "The pending actions of "@ + collection
        + " could not be decoded and are not listed; the next drain will park them"@
}

/// What is said of a collection left out of the listing.
fn undecodable_text(collection: &str) -> (text: String)
    ensures
        text@ == undecodable_line(collection@),
{
    let mut text = "The pending actions of ".to_owned();
    text.append(collection);
    text.append(" could not be decoded and are not listed; the next drain will park them");
    text
}

/// What is said of the collections left out of the listing.
fn undecodable_lines(list: &Vec<String>) -> (out: Vec<String>)
    ensures
        out.deep_view() == list.deep_view().map_values(|x: Text| undecodable_line(x)),
{
    let ghost all = list.deep_view();
    let ghost told = |x: Text| undecodable_line(x);
    let mut out: Vec<String> = Vec::new();
    let mut i: usize = 0;
    assert(out.deep_view() =~= all.take(0).map_values(told));
    while i < list.len()
        invariant
            i <= list.len(),
            all == list.deep_view(),
            told == (|x: Text| undecodable_line(x)),
            out.deep_view() == all.take(i as int).map_values(told),
        decreases list.len() - i,
    {
        assert(all[i as int] == list@[i as int].deep_view());
        push_to(&mut out, undecodable_text(list[i].as_str()));
        assert(out.deep_view() =~= all.take(i + 1).map_values(told));
        i = i + 1;
    }
    assert(all.take(i as int) =~= all);
    out
}

impl QueueOutput {
    /// The pending actions of every queued collection, in append order. One
    /// undecodable payload must not hide the whole queue: the collection is
    /// reported instead.
    pub fn pending(reads: &Vec<PimdirQueueRead>) -> (output: Self)
        ensures
            output@ == (QueueOutputView {
                parked: false,
                actions: by_id(listed(reads.deep_view())),
                undecodable: unlisted(reads.deep_view()),
            }),
    {
        let ghost all = reads.deep_view();
        let mut rows: Vec<QueueRow> = Vec::new();
        let mut undecodable: Vec<String> = Vec::new();
        let mut i: usize = 0;
        assert(rows.deep_view() =~= Seq::empty());
        assert(undecodable.deep_view() =~= Seq::empty());
        while i < reads.len()
            invariant
                i <= reads.len(),
                all == reads.deep_view(),
                rows.deep_view() == listed(all.take(i as int)),
                undecodable.deep_view() == unlisted(all.take(i as int)),
            decreases reads.len() - i,
        {
            proof {
                assert(all.take(i + 1).drop_last() =~= all.take(i as int));
                assert(all.take(i + 1).last() == reads@[i as int]@);
            }
            match &reads[i].actions {
                Some(actions) => crate::list::extend_with(
                    &mut rows,
                    pending_rows(actions, reads[i].collection.as_str()),
                ),
                None => push_to(&mut undecodable, reads[i].collection.clone()),
            }
            i = i + 1;
        }
        assert(all.take(i as int) =~= all);
        QueueOutput { parked: false, actions: sort_by_id(rows), undecodable }
    }

    /// The parked actions, in the order read.
    pub fn parked(actions: &Vec<PimdirParkedAction>) -> (output: Self)
        ensures
            output@ == (QueueOutputView {
                parked: true,
                actions: actions.deep_view().map_values(|x: ParkedActionView| parked_row(x)),
                undecodable: Seq::empty(),
            }),
    {
        let undecodable: Vec<String> = Vec::new();
        assert(undecodable.deep_view() =~= Seq::empty());
        QueueOutput { parked: true, actions: parked_rows(actions), undecodable }
    }

    /// The table of the listing, its header first, where there is any
    /// action.
    pub fn table(&self) -> (table: Option<(Vec<String>, Vec<Vec<String>>)>)
        ensures
            match table {
                Some((header, rows)) => self.actions.len() > 0 && header.deep_view()
                    == queue_header(self.parked) && rows.deep_view()
                    == self.actions.deep_view().map_values(
                    |x: QueueRowView| queue_cells(x, self.parked),
                ),
                None => self.actions.len() == 0,
            },
    {
        if self.actions.len() == 0 {
            return None;
        }
        Some((header_cells(self.parked), all_cells(&self.actions, self.parked)))
    }

    /// What is said of a queue that holds no such action.
    pub fn nothing(&self) -> (text: String)
        ensures
            text@ == if self.parked {
                "No parked action in this store's queue"@
            } else {
                "No pending action in this store's queue"@
            },
    {
        if self.parked {
            "No parked action in this store's queue".to_owned()
        } else {
            "No pending action in this store's queue".to_owned()
        }
    }

    /// What is said below the table: never silently short, a collection
    /// left out of the listing is said out loud.
    pub fn footer(&self) -> (lines: Vec<String>)
        ensures
            lines.deep_view() == self.undecodable.deep_view().map_values(
                |x: Text| undecodable_line(x),
            ),
    {
        undecodable_lines(&self.undecodable)
    }
}

/// The `queue cancel` output.
#[derive(Clone, Copy, Debug, PartialEq, Eq)]
pub struct QueueCancelOutput {
    /// The dropped action's id.
    pub id: i64,
}

impl QueueCancelOutput {
    /// What the verb asks before it drops an action.
    pub fn question(id: i64) -> (text: String)
        ensures
            text@ == "Drop queued action "@ + signed_text(id as int) + " for good?"@,
    {
        let mut text = "Drop queued action ".to_owned();
        push_signed(&mut text, id);
        text.append(" for good?");
        text
    }

    /// What the verb says of an action that is not there.
    pub fn unknown(id: i64) -> (text: String)
        ensures
            text@ == "no queued action with id "@ + signed_text(id as int),
    {
        let mut text = "no queued action with id ".to_owned();
        push_signed(&mut text, id);
        text
    }

    /// What the verb says of an action it dropped.
    pub fn line(&self) -> (text: String)
        ensures
            text@ == "Dropped queued action "@ + signed_text(self.id as int),
    {
        let mut text = "Dropped queued action ".to_owned();
        push_signed(&mut text, self.id);
        text
    }
}

proof fn lemma_placed_by_id(rows: Seq<QueueRowView>, row: QueueRowView)
    requires
        forall|i: int, j: int| 0 <= i <= j < rows.len() ==> (#[trigger] rows[i]).id <= (
        #[trigger] rows[j]).id,
    ensures
        placed_by_id(rows, row).to_multiset() == rows.push(row).to_multiset(),
        placed_by_id(rows, row).len() == rows.len() + 1,
        forall|i: int, j: int|
            0 <= i <= j < placed_by_id(rows, row).len() ==> (#[trigger] placed_by_id(rows, row)[i]).id
                <= (#[trigger] placed_by_id(rows, row)[j]).id,
        forall|i: int|
            0 <= i < placed_by_id(rows, row).len() ==> (#[trigger] placed_by_id(rows, row)[i]).id
                <= row.id || rows.len() > 0 && placed_by_id(rows, row)[i].id <= rows.last().id,
    decreases rows.len(),
{
    broadcast use vstd::seq_lib::group_to_multiset_ensures;

    if rows.len() > 0 && row.id < rows.last().id {
        let rest = rows.drop_last();
        let before = placed_by_id(rest, row);
        assert forall|i: int, j: int| 0 <= i <= j < rest.len() implies (#[trigger] rest[i]).id <= (
        #[trigger] rest[j]).id by {
            assert(rest[i] == rows[i] && rest[j] == rows[j]);
        }
        lemma_placed_by_id(rest, row);
        let all = placed_by_id(rows, row);
        assert(all == before.push(rows.last()));
        assert(rows =~= rest.push(rows.last()));
        assert(rest.push(row).to_multiset() == rest.to_multiset().insert(row));
        assert(all.to_multiset() =~= rows.push(row).to_multiset());
        assert forall|i: int| 0 <= i < before.len() implies (#[trigger] before[i]).id
            <= rows.last().id by {
            if rest.len() > 0 {
                assert(rest.last() == rows[rows.len() - 2]);
                assert(rows[rows.len() - 2].id <= rows[rows.len() - 1].id);
            }
        }
    }
}

/// A queue is listed in the order of its ids, every row of it and no
/// other.
pub proof fn lemma_a_queue_is_listed_by_id(rows: Seq<QueueRowView>)
    ensures
        forall|i: int, j: int|
            0 <= i <= j < by_id(rows).len() ==> (#[trigger] by_id(rows)[i]).id <= (#[trigger] by_id(
                rows,
            )[j]).id,
        by_id(rows).to_multiset() == rows.to_multiset(),
        by_id(rows).len() == rows.len(),
    decreases rows.len(),
{
    broadcast use vstd::seq_lib::group_to_multiset_ensures;

    if rows.len() > 0 {
        lemma_a_queue_is_listed_by_id(rows.drop_last());
        lemma_placed_by_id(by_id(rows.drop_last()), rows.last());
        assert(rows =~= rows.drop_last().push(rows.last()));
    } else {
        assert(rows =~= Seq::empty());
    }
}

/// Every pending action of a collection that could be decoded is listed,
/// and a collection whose actions could not be is named instead.
pub proof fn lemma_every_pending_action_is_listed(reads: Seq<QueueReadView>, r: int, i: int)
    requires
        0 <= r < reads.len(),
    ensures
        reads[r].actions matches Some(actions) ==> (0 <= i < actions.len() ==> listed(
            reads,
        ).contains(pending_row(reads[r].collection, actions[i]))),
        reads[r].actions is None ==> unlisted(reads).contains(reads[r].collection),
    decreases reads.len(),
{
    let rest = reads.drop_last();
    let last = reads.len() - 1;
    if r < last {
        lemma_every_pending_action_is_listed(rest, r, i);
        assert(rest[r] == reads[r]);
        match reads[r].actions {
            Some(actions) => {
                if 0 <= i < actions.len() {
                    let row = pending_row(reads[r].collection, actions[i]);
                    let k = choose|k: int| 0 <= k < listed(rest).len() && listed(rest)[k] == row;
                    assert(listed(reads)[k] == row);
                }
            },
            None => {
                let name = reads[r].collection;
                let k = choose|k: int| 0 <= k < unlisted(rest).len() && unlisted(rest)[k] == name;
                assert(unlisted(reads)[k] == name);
            },
        }
    } else {
        match reads[r].actions {
            Some(actions) => {
                if 0 <= i < actions.len() {
                    let row = pending_row(reads[r].collection, actions[i]);
                    assert(listed(reads)[listed(rest).len() + i] == row);
                }
            },
            None => {
                assert(unlisted(reads)[unlisted(rest).len() as int] == reads[r].collection);
            },
        }
    }
}

/// A row of the queue tells its action as enqueued: by whom, when, for
/// which collection, and how often it was tried; only a parked one tells
/// an error.
pub proof fn lemma_a_queue_row_tells_its_action(
    collection: Text,
    pending: PendingActionView,
    parked: ParkedActionView,
)
    ensures
        ({
            let row = pending_row(collection, pending);
            &&& row.id == pending.id
            &&& row.created_at == pending.created_at
            &&& row.producer == pending.producer
            &&& row.collection == collection
            &&& row.kind == pending.action.kind()
            &&& row.attempts == pending.attempts
            &&& row.error is None
        }),
        ({
            let row = parked_row(parked);
            &&& row.id == parked.id
            &&& row.created_at == parked.created_at
            &&& row.producer == parked.producer
            &&& row.collection == parked.collection
            &&& row.kind == parked.action
            &&& row.summary == parked.payload
            &&& row.attempts == parked.attempts
            &&& row.error == Some(parked.error)
        }),
{
}

/// A table of the queue has one cell under each heading, and the error of
/// a parked action under the last.
pub proof fn lemma_a_queue_row_fills_its_table(row: QueueRowView, parked: bool)
    ensures
        queue_cells(row, parked).len() == queue_header(parked).len(),
        queue_cells(row, parked)[0] == signed_text(row.id as int),
        queue_cells(row, parked)[1] == row.created_at,
        queue_cells(row, parked)[2] == row.producer,
        queue_cells(row, parked)[3] == row.collection,
        queue_cells(row, parked)[4] == row.kind,
        queue_cells(row, parked)[5] == row.summary,
        queue_cells(row, parked)[6] == signed_text(row.attempts as int),
        parked && row.error is Some ==> queue_cells(row, parked)[7] == row.error->0,
{
}

} // verus!
