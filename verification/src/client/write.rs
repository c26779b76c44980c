//! # The seam
//!
//! The load and the write of one source: a load projects the hub for the
//! source with its probes and checkpoint, and a write folds a batch into
//! the hub narrowed to the link ids it names, then persists only the rows
//! that moved. Probes, retention, refcounts and the generation bump ride
//! the same transaction.
//!
//! What the database holds comes in as an argument and what it is to hold
//! goes out as a list of row operations, in the order they run.

use crate::change::{PimdirDropReason, PimdirWriteOp, WriteOpView};
use crate::client::rows::{
    binding_columns, columns_of, item_columns, row_of_binding, row_of_item, stuck_on,
    summary_columns, table_of, BindingRowView, ItemRowView, PimdirBindingRow, PimdirItemRow,
    PimdirSummaryTable, PimdirValue, ValueView,
};
use crate::client::{failed, ErrorView, PimdirError};
use crate::codec::flags_to_json;
use crate::client::rows::flags_column;
use crate::hub::{
    absorbed, ops_view, BindingView, HubItemView, HubView, PimdirBinding, PimdirHub, PimdirHubItem,
    PimdirSourceId,
};
use crate::list::{extend_with, push_to};
use crate::object::PimdirHash;
use crate::placement::{PimdirBase, PimdirLinkId, PlacementView};
use crate::scan::{chars_of, spells};
use crate::summary::calendar::PimdirTime;
use crate::summary::{
    people, AddressView, PimdirAddress, PimdirAddressRole, PimdirSummary, SummaryView,
};
use crate::text::{clone_bytes, same_option, text_same, Text};
use crate::text_map::{
    ascending, in_order, lemma_ascending_distinct, lemma_order_of_finite, TextMap, TextSet,
};
use vstd::prelude::*;
use vstd::slice::*;
use vstd::string::*;

verus! {

/// One change of the stored rows.
#[derive(Debug, PartialEq, Eq)]
#[allow(inconsistent_fields)]
pub enum PimdirRowOp {
    /// Creates the collection if it is not there.
    EnsureCollection {
        /// The collection.
        collection: String,
        /// The account it is created under.
        account: Option<String>,
    },
    /// Indexes a body, its bytes written first where they are carried.
    StoreObject {
        /// The body's hash.
        hash: String,
        /// Its size.
        size: i64,
        /// Its bytes.
        body: Option<Vec<u8>>,
    },
    /// Records a sync checkpoint.
    SetCheckpoint {
        /// The collection.
        collection: String,
        /// The source.
        source: String,
        /// The checkpoint.
        checkpoint: Vec<u8>,
    },
    /// Records a handle nothing is known of but its flags.
    UpsertProbe {
        /// The collection.
        collection: String,
        /// The source.
        source: String,
        /// The handle.
        handle: String,
        /// The flags as JSON.
        flags: Option<String>,
    },
    /// Forgets such a handle.
    DeleteProbe {
        /// The collection.
        collection: String,
        /// The source.
        source: String,
        /// The handle.
        handle: String,
    },
    /// Brings an item in, new or revived.
    AdmitItem {
        /// The collection.
        collection: String,
        /// Its columns.
        row: PimdirItemRow,
        /// Its bindings.
        bindings: Vec<PimdirBindingRow>,
    },
    /// Inserts an item.
    InsertItem {
        /// The collection.
        collection: String,
        /// Its public id.
        seq: i64,
        /// Its columns.
        row: PimdirItemRow,
    },
    /// Ends the retention of an item.
    ReviveItem {
        /// The collection.
        collection: String,
        /// The item's key.
        link_id: String,
    },
    /// Updates an item's columns.
    UpdateItem {
        /// The collection.
        collection: String,
        /// Its columns.
        row: PimdirItemRow,
    },
    /// Stamps an item changed.
    StampItem {
        /// The collection.
        collection: String,
        /// The item's key.
        link_id: String,
    },
    /// Draws the next change stamp.
    BumpNextChange,
    /// Inserts a binding.
    InsertBinding {
        /// The collection.
        collection: String,
        /// Its columns.
        row: PimdirBindingRow,
    },
    /// Updates a binding.
    UpdateBinding {
        /// The collection.
        collection: String,
        /// Its columns.
        row: PimdirBindingRow,
    },
    /// Deletes a binding.
    DeleteBinding {
        /// The collection.
        collection: String,
        /// The item's key.
        link_id: String,
        /// The source.
        source: String,
    },
    /// Deletes every binding of an item.
    DeleteItemBindings {
        /// The collection.
        collection: String,
        /// The item's key.
        link_id: String,
    },
    /// Retains an item no source holds any more.
    RetainItem {
        /// The collection.
        collection: String,
        /// The item's key.
        link_id: String,
        /// The source.
        source: String,
    },
    /// Purges the item just retained where its account holds it live in another collection.
    PurgeIfHeldElsewhere {
        /// The collection.
        collection: String,
        /// The item's key.
        link_id: String,
    },
    /// Deletes a summary row.
    DeleteSummary {
        /// The collection.
        collection: String,
        /// The item's key.
        link_id: String,
        /// The table it stands in.
        table: PimdirSummaryTable,
    },
    /// Deletes the address rows of an item.
    ReplaceAddresses {
        /// The collection.
        collection: String,
        /// The item's key.
        link_id: String,
    },
    /// Writes a summary row.
    UpsertSummary {
        /// The collection.
        collection: String,
        /// The item's key.
        link_id: String,
        /// The table it stands in.
        table: PimdirSummaryTable,
        /// Its columns.
        columns: Vec<PimdirValue>,
    },
    /// Inserts an address row.
    InsertAddress {
        /// The collection.
        collection: String,
        /// The item's key.
        link_id: String,
        /// The role.
        role: String,
        /// The position under the role.
        position: i64,
        /// The address.
        address: String,
        /// The display name.
        name: Option<String>,
    },
    /// Moves the reference count of a body.
    AdjustRefcount {
        /// The body's hash.
        hash: String,
        /// By how much.
        delta: i64,
    },
    /// Starts a new handle-space epoch.
    BumpGeneration {
        /// The collection.
        collection: String,
    },
}

/// What a [`PimdirRowOp`] says, by value.
#[verifier::ext_equal]
#[allow(inconsistent_fields)]
pub enum RowOpView {
    EnsureCollection { collection: Text, account: Option<Text> },
    StoreObject { hash: Text, size: i64, body: Option<Seq<u8>> },
    SetCheckpoint { collection: Text, source: Text, checkpoint: Seq<u8> },
    UpsertProbe { collection: Text, source: Text, handle: Text, flags: Option<Text> },
    DeleteProbe { collection: Text, source: Text, handle: Text },
    AdmitItem { collection: Text, row: ItemRowView, bindings: Seq<BindingRowView> },
    InsertItem { collection: Text, seq: i64, row: ItemRowView },
    ReviveItem { collection: Text, link_id: Text },
    UpdateItem { collection: Text, row: ItemRowView },
    StampItem { collection: Text, link_id: Text },
    BumpNextChange,
    InsertBinding { collection: Text, row: BindingRowView },
    UpdateBinding { collection: Text, row: BindingRowView },
    DeleteBinding { collection: Text, link_id: Text, source: Text },
    DeleteItemBindings { collection: Text, link_id: Text },
    RetainItem { collection: Text, link_id: Text, source: Text },
    PurgeIfHeldElsewhere { collection: Text, link_id: Text },
    DeleteSummary { collection: Text, link_id: Text, table: PimdirSummaryTable },
    ReplaceAddresses { collection: Text, link_id: Text },
    UpsertSummary { collection: Text, link_id: Text, table: PimdirSummaryTable, columns: Seq<ValueView> },
    InsertAddress { collection: Text, link_id: Text, role: Text, position: i64, address: Text, name: Option<Text> },
    AdjustRefcount { hash: Text, delta: i64 },
    BumpGeneration { collection: Text },
}

impl View for PimdirRowOp {
    type V = RowOpView;

    open spec fn view(&self) -> RowOpView {
        match *self {
            PimdirRowOp::EnsureCollection { collection, account } => RowOpView::EnsureCollection {
                collection: collection@,
                account: account.deep_view(),
            },
            PimdirRowOp::StoreObject { hash, size, body } => RowOpView::StoreObject {
                hash: hash@,
                size: size,
                body: body.deep_view(),
            },
            PimdirRowOp::SetCheckpoint { collection, source, checkpoint } => RowOpView::SetCheckpoint {
                collection: collection@,
                source: source@,
                checkpoint: checkpoint@,
            },
            PimdirRowOp::UpsertProbe { collection, source, handle, flags } => RowOpView::UpsertProbe {
                collection: collection@,
                source: source@,
                handle: handle@,
                flags: flags.deep_view(),
            },
            PimdirRowOp::DeleteProbe { collection, source, handle } => RowOpView::DeleteProbe {
                collection: collection@,
                source: source@,
                handle: handle@,
            },
            PimdirRowOp::AdmitItem { collection, row, bindings } => RowOpView::AdmitItem {
                collection: collection@,
                row: row@,
                bindings: bindings.deep_view(),
            },
            PimdirRowOp::InsertItem { collection, seq, row } => RowOpView::InsertItem {
                collection: collection@,
                seq: seq,
                row: row@,
            },
            PimdirRowOp::ReviveItem { collection, link_id } => RowOpView::ReviveItem {
                collection: collection@,
                link_id: link_id@,
            },
            PimdirRowOp::UpdateItem { collection, row } => RowOpView::UpdateItem {
                collection: collection@,
                row: row@,
            },
            PimdirRowOp::StampItem { collection, link_id } => RowOpView::StampItem {
                collection: collection@,
                link_id: link_id@,
            },
            PimdirRowOp::BumpNextChange => RowOpView::BumpNextChange,
            PimdirRowOp::InsertBinding { collection, row } => RowOpView::InsertBinding {
                collection: collection@,
                row: row@,
            },
            PimdirRowOp::UpdateBinding { collection, row } => RowOpView::UpdateBinding {
                collection: collection@,
                row: row@,
            },
            PimdirRowOp::DeleteBinding { collection, link_id, source } => RowOpView::DeleteBinding {
                collection: collection@,
                link_id: link_id@,
                source: source@,
            },
            PimdirRowOp::DeleteItemBindings { collection, link_id } => RowOpView::DeleteItemBindings {
                collection: collection@,
                link_id: link_id@,
            },
            PimdirRowOp::RetainItem { collection, link_id, source } => RowOpView::RetainItem {
                collection: collection@,
                link_id: link_id@,
                source: source@,
            },
            PimdirRowOp::PurgeIfHeldElsewhere { collection, link_id } => RowOpView::PurgeIfHeldElsewhere {
                collection: collection@,
                link_id: link_id@,
            },
            PimdirRowOp::DeleteSummary { collection, link_id, table } => RowOpView::DeleteSummary {
                collection: collection@,
                link_id: link_id@,
                table: table,
            },
            PimdirRowOp::ReplaceAddresses { collection, link_id } => RowOpView::ReplaceAddresses {
                collection: collection@,
                link_id: link_id@,
            },
            PimdirRowOp::UpsertSummary { collection, link_id, table, columns } => RowOpView::UpsertSummary {
                collection: collection@,
                link_id: link_id@,
                table: table,
                columns: columns.deep_view(),
            },
            PimdirRowOp::InsertAddress { collection, link_id, role, position, address, name } => RowOpView::InsertAddress {
                collection: collection@,
                link_id: link_id@,
                role: role@,
                position: position,
                address: address@,
                name: name.deep_view(),
            },
            PimdirRowOp::AdjustRefcount { hash, delta } => RowOpView::AdjustRefcount {
                hash: hash@,
                delta: delta,
            },
            PimdirRowOp::BumpGeneration { collection } => RowOpView::BumpGeneration {
                collection: collection@,
            },
        }
    }
}

impl DeepView for PimdirRowOp {
    type V = RowOpView;

    open spec fn deep_view(&self) -> RowOpView {
        self@
    }
}

/// Placement writes of one collection, in order.
#[derive(Debug, PartialEq, Eq)]
pub struct PimdirBatch(pub Vec<PimdirWriteOp>);

impl View for PimdirBatch {
    type V = Seq<WriteOpView>;

    open spec fn view(&self) -> Seq<WriteOpView> {
        self.0.deep_view()
    }
}

/// What a batch comes to before the hub is read: the rows to move at once,
/// the placement writes to fold per collection, the handles each collection
/// superseded or rekeyed, and the collections a rebuild renumbered.
#[derive(Debug, PartialEq, Eq)]
pub struct PimdirPlan {
    /// The rows to move at once, in order.
    pub rows: Vec<PimdirRowOp>,
    /// The placement writes, by collection.
    pub hub: TextMap<PimdirBatch>,
    /// The handles superseded or rekeyed, by collection.
    pub licensed: TextMap<TextSet>,
    /// The collections whose handles were renumbered.
    pub rekeyed: TextSet,
}

/// A plan as it grows, by value, with every handle dropped so far.
#[verifier::ext_equal]
pub struct PlanView {
    pub rows: Seq<RowOpView>,
    pub hub: Map<Text, Seq<WriteOpView>>,
    pub licensed: Map<Text, Set<Text>>,
    pub dropped: Map<Text, Set<Text>>,
    pub rekeyed: Set<Text>,
}

/// The writes planned for a collection.
pub open spec fn batch_at(hub: Map<Text, Seq<WriteOpView>>, collection: Text) -> Seq<WriteOpView> {
    if hub.dom().contains(collection) {
        hub[collection]
    } else {
        Seq::empty()
    }
}

/// The handles noted for a collection.
pub open spec fn handles_at(map: Map<Text, Set<Text>>, collection: Text) -> Set<Text> {
    if map.dom().contains(collection) {
        map[collection]
    } else {
        Set::empty()
    }
}

/// The link id a handle of a collection is bound to.
pub open spec fn bound_to(bound: Map<Text, Map<Text, Text>>, collection: Text, handle: Text) -> Option<
    Text,
> {
    if bound.dom().contains(collection) && bound[collection].dom().contains(handle) {
        Some(bound[collection][handle])
    } else {
        None
    }
}

/// A plan before anything is planned.
pub open spec fn nothing_planned() -> PlanView {
    PlanView {
        rows: Seq::empty(),
        hub: Map::empty(),
        licensed: Map::empty(),
        dropped: Map::empty(),
        rekeyed: Set::empty(),
    }
}

/// A plan with an upsert more: a handle nothing names stays a probe; one
/// bound to another link id retires that binding first, as a `Deleted` drop
/// of the handle would, unless the batch dropped the handle already.
pub open spec fn plan_upsert(
    plan: PlanView,
    source: Text,
    account: Option<Text>,
    bound: Map<Text, Map<Text, Text>>,
    placement: PlacementView,
) -> PlanView {
    let collection = placement.collection;
    let handle = placement.handle;
    let held = bound_to(bound, collection, handle);
    let ensured = plan.rows.push(RowOpView::EnsureCollection { collection, account });
    let link = match placement.link_id {
        Some(link) => Some(link),
        None => held,
    };
    match link {
        None => PlanView {
            rows: ensured.push(
                RowOpView::UpsertProbe {
                    collection,
                    source,
                    handle,
                    flags: flags_column(placement.flags),
                },
            ),
            ..plan
        },
        Some(link) => {
            let retired = held is Some && held != Some(link) && !handles_at(
                plan.dropped,
                collection,
            ).contains(handle);
            let batch = batch_at(plan.hub, collection);
            let batch = if retired {
                batch.push(
                    WriteOpView::DropPlacement {
                        collection,
                        handle,
                        reason: PimdirDropReason::Deleted,
                    },
                )
            } else {
                batch
            };
            PlanView {
                rows: ensured.push(RowOpView::DeleteProbe { collection, source, handle }),
                hub: plan.hub.insert(
                    collection,
                    batch.push(
                        WriteOpView::UpsertPlacement(
                            PlacementView { link_id: Some(link), ..placement },
                        ),
                    ),
                ),
                ..plan
            }
        },
    }
}

/// A plan with a drop more.
pub open spec fn plan_drop(
    plan: PlanView,
    source: Text,
    collection: Text,
    handle: Text,
    reason: PimdirDropReason,
) -> PlanView {
    PlanView {
        rows: plan.rows.push(RowOpView::DeleteProbe { collection, source, handle }),
        hub: plan.hub.insert(
            collection,
            batch_at(plan.hub, collection).push(
                WriteOpView::DropPlacement { collection, handle, reason },
            ),
        ),
        licensed: if reason != PimdirDropReason::Deleted {
            plan.licensed.insert(
                collection,
                handles_at(plan.licensed, collection).insert(handle),
            )
        } else {
            plan.licensed
        },
        dropped: plan.dropped.insert(
            collection,
            handles_at(plan.dropped, collection).insert(handle),
        ),
        rekeyed: if reason == PimdirDropReason::Rekeyed {
            plan.rekeyed.insert(collection)
        } else {
            plan.rekeyed
        },
    }
}

/// A plan with one write more: objects and checkpoints as they come,
/// placements for their collection.
pub open spec fn plan_one(
    plan: PlanView,
    source: Text,
    account: Option<Text>,
    bound: Map<Text, Map<Text, Text>>,
    op: WriteOpView,
) -> PlanView {
    match op {
        WriteOpView::StoreObject { object, body } => PlanView {
            rows: plan.rows.push(
                RowOpView::StoreObject { hash: object.hash, size: object.size as i64, body },
            ),
            ..plan
        },
        WriteOpView::SetCheckpoint { collection, checkpoint } => PlanView {
            rows: plan.rows.push(RowOpView::EnsureCollection { collection, account }).push(
                RowOpView::SetCheckpoint { collection, source, checkpoint },
            ),
            ..plan
        },
        WriteOpView::UpsertPlacement(placement) => plan_upsert(
            plan,
            source,
            account,
            bound,
            placement,
        ),
        WriteOpView::DropPlacement { collection, handle, reason } => plan_drop(
            plan,
            source,
            collection,
            handle,
            reason,
        ),
    }
}

/// What a batch is planned as.
pub open spec fn planned(
    source: Text,
    account: Option<Text>,
    bound: Map<Text, Map<Text, Text>>,
    ops: Seq<WriteOpView>,
) -> PlanView
    decreases ops.len(),
{
    if ops.len() == 0 {
        nothing_planned()
    } else {
        plan_one(planned(source, account, bound, ops.drop_last()), source, account, bound, ops.last())
    }
}

/// Adds a write to those of a collection.
fn add_op(hub: &mut TextMap<PimdirBatch>, collection: &str, op: PimdirWriteOp)
    ensures
        final(hub)@ == old(hub)@.insert(
            collection@,
            batch_at(old(hub)@, collection@).push(op@),
        ),
{
    let ghost before = hub@;
    let mut batch = match hub.remove(collection) {
        Some(batch) => batch,
        None => {
            let batch = PimdirBatch(Vec::new());
            assert(batch@ =~= Seq::empty());
            batch
        },
    };
    push_to(&mut batch.0, op);
    hub.insert(collection.to_owned(), batch);
    assert(hub@ =~= before.insert(collection@, batch_at(before, collection@).push(op@)));
}

/// Adds a handle to those of a collection.
fn add_handle(map: &mut TextMap<TextSet>, collection: &str, handle: &str)
    ensures
        final(map)@ == old(map)@.insert(
            collection@,
            handles_at(old(map)@, collection@).insert(handle@),
        ),
{
    let ghost before = map@;
    let mut set = match map.remove(collection) {
        Some(set) => set,
        None => TextSet::new(),
    };
    set.insert(handle.to_owned());
    map.insert(collection.to_owned(), set);
    assert(map@ =~= before.insert(collection@, handles_at(before, collection@).insert(handle@)));
}

/// Whether a collection holds a handle.
fn holds_handle(map: &TextMap<TextSet>, collection: &str, handle: &str) -> (yes: bool)
    ensures
        yes == handles_at(map@, collection@).contains(handle@),
{
    match map.get(collection) {
        Some(set) => set.contains(handle),
        None => false,
    }
}

/// The link id a handle of a collection is bound to.
fn link_for_handle(
    bound: &TextMap<TextMap<String>>,
    collection: &str,
    handle: &str,
) -> (link: Option<PimdirLinkId>)
    ensures
        link.deep_view() == bound_to(bound@, collection@, handle@),
{
    match bound.get(collection) {
        Some(handles) => match handles.get(handle) {
            Some(link) => Some(PimdirLinkId(link.clone())),
            None => None,
        },
        None => None,
    }
}

/// Plans a batch: objects and checkpoints are written as they come. A
/// placement with no link id lands on the binding its handle holds or, when
/// none does, as a probe; a placement whose handle is bound to another link
/// id retires that binding first, as a `Deleted` drop of the handle would;
/// every other placement write is kept for its collection's hub.
///
/// `bound` holds the link ids the handles of the batch are bound to on this
/// source, by collection and handle.
pub fn plan(
    source: &PimdirSourceId,
    account: &Option<String>,
    bound: &TextMap<TextMap<String>>,
    ops: &Vec<PimdirWriteOp>,
) -> (plan: PimdirPlan)
    ensures
        ({
            let whole = planned(source@, account.deep_view(), bound@, ops.deep_view());
            &&& plan.rows.deep_view() == whole.rows
            &&& plan.hub@ == whole.hub
            &&& plan.licensed@ == whole.licensed
            &&& plan.rekeyed@ == whole.rekeyed
        }),
{
    let ghost all = ops.deep_view();
    let mut rows: Vec<PimdirRowOp> = Vec::new();
    let mut hub: TextMap<PimdirBatch> = TextMap::new();
    let mut licensed: TextMap<TextSet> = TextMap::new();
    let mut dropped: TextMap<TextSet> = TextMap::new();
    let mut rekeyed = TextSet::new();
    let mut i: usize = 0;
    assert(rows.deep_view() =~= Seq::empty());
    while i < ops.len()
        invariant
            i <= ops.len(),
            all == ops.deep_view(),
            planned(source@, account.deep_view(), bound@, all.take(i as int)) == (PlanView {
                rows: rows.deep_view(),
                hub: hub@,
                licensed: licensed@,
                dropped: dropped@,
                rekeyed: rekeyed@,
            }),
        decreases ops.len() - i,
    {
        let ghost before = PlanView {
            rows: rows.deep_view(),
            hub: hub@,
            licensed: licensed@,
            dropped: dropped@,
            rekeyed: rekeyed@,
        };
        proof {
            assert(all.take(i + 1).drop_last() =~= all.take(i as int));
            assert(all.take(i + 1).last() == ops@[i as int]@);
        }
        match &ops[i] {
            PimdirWriteOp::StoreObject { object, body } => {
                let body = match body {
                    Some(bytes) => Some(clone_bytes(bytes)),
                    None => None,
                };
                push_to(
                    &mut rows,
                    PimdirRowOp::StoreObject {
                        hash: object.hash.0.clone(),
                        size: #[verifier::truncate] (object.size as i64),
                        body,
                    },
                );
            },
            PimdirWriteOp::SetCheckpoint { collection, checkpoint } => {
                push_to(
                    &mut rows,
                    PimdirRowOp::EnsureCollection {
                        collection: collection.0.clone(),
                        account: account.clone(),
                    },
                );
                push_to(
                    &mut rows,
                    PimdirRowOp::SetCheckpoint {
                        collection: collection.0.clone(),
                        source: source.0.clone(),
                        checkpoint: clone_bytes(&checkpoint.0),
                    },
                );
            },
            PimdirWriteOp::UpsertPlacement(placement) => {
                let collection = placement.collection.0.as_str();
                let handle = placement.handle.0.as_str();
                push_to(
                    &mut rows,
                    PimdirRowOp::EnsureCollection {
                        collection: placement.collection.0.clone(),
                        account: account.clone(),
                    },
                );
                let held = link_for_handle(bound, collection, handle);
                let link = match &placement.link_id {
                    Some(link) => Some(link.clone()),
                    None => held.clone(),
                };
                match link {
                    None => {
                        push_to(
                            &mut rows,
                            PimdirRowOp::UpsertProbe {
                                collection: placement.collection.0.clone(),
                                source: source.0.clone(),
                                handle: placement.handle.0.clone(),
                                flags: flags_to_json(&placement.flags),
                            },
                        );
                    },
                    Some(link) => {
                        push_to(
                            &mut rows,
                            PimdirRowOp::DeleteProbe {
                                collection: placement.collection.0.clone(),
                                source: source.0.clone(),
                                handle: placement.handle.0.clone(),
                            },
                        );
                        let elsewhere = match &held {
                            Some(held) => !(*held == link),
                            None => false,
                        };
                        if elsewhere && !holds_handle(&dropped, collection, handle) {
                            add_op(
                                &mut hub,
                                collection,
                                PimdirWriteOp::DropPlacement {
                                    collection: placement.collection.clone(),
                                    handle: placement.handle.clone(),
                                    reason: PimdirDropReason::Deleted,
                                },
                            );
                        }
                        let mut named = placement.clone();
                        named.link_id = Some(link);
                        add_op(&mut hub, collection, PimdirWriteOp::UpsertPlacement(named));
                        assert(named@ =~= (PlacementView { link_id: Some(link@), ..placement@ }));
                    },
                }
                assert((PlanView {
                    rows: rows.deep_view(),
                    hub: hub@,
                    licensed: licensed@,
                    dropped: dropped@,
                    rekeyed: rekeyed@,
                }) =~= plan_upsert(
                    before,
                    source@,
                    account.deep_view(),
                    bound@,
                    placement@,
                ));
            },
            PimdirWriteOp::DropPlacement { collection, handle, reason } => {
                push_to(
                    &mut rows,
                    PimdirRowOp::DeleteProbe {
                        collection: collection.0.clone(),
                        source: source.0.clone(),
                        handle: handle.0.clone(),
                    },
                );
                add_handle(&mut dropped, collection.0.as_str(), handle.0.as_str());
                if *reason != PimdirDropReason::Deleted {
                    add_handle(&mut licensed, collection.0.as_str(), handle.0.as_str());
                }
                if *reason == PimdirDropReason::Rekeyed {
                    rekeyed.insert(collection.0.clone());
                }
                add_op(
                    &mut hub,
                    collection.0.as_str(),
                    PimdirWriteOp::DropPlacement {
                        collection: collection.clone(),
                        handle: handle.clone(),
                        reason: *reason,
                    },
                );
            },
        }
        assert((PlanView {
            rows: rows.deep_view(),
            hub: hub@,
            licensed: licensed@,
            dropped: dropped@,
            rekeyed: rekeyed@,
        }) =~= plan_one(before, source@, account.deep_view(), bound@, ops@[i as int]@));
        i = i + 1;
    }
    assert(all.take(i as int) =~= all);
    PimdirPlan { rows, hub, licensed, rekeyed }
}

/// The refusal of a write that would bind one link id to two handles.
pub open spec fn rebind(collection: Text, link: Text, source: Text, bound: Text, incoming: Text) -> ErrorView {
    ErrorView::Rebind { collection, link_id: link, source, bound, incoming }
}

/// The link ids a batch has claimed without those one handle claimed.
pub open spec fn unclaimed(claimed: Map<Text, Text>, handle: Text) -> Map<Text, Text> {
    Map::new(
        |link: Text| claimed.dom().contains(link) && claimed[link] != handle,
        |link: Text| claimed[link],
    )
}

/// The handle each link id of a batch is claimed by, or the refusal of the
/// first upsert that claims one under another handle. A drop that is no
/// delete lets go of what its handle claimed.
pub open spec fn claims(collection: Text, source: Text, ops: Seq<WriteOpView>) -> Result<
    Map<Text, Text>,
    ErrorView,
>
    decreases ops.len(),
{
    if ops.len() == 0 {
        Ok(Map::empty())
    } else {
        match claims(collection, source, ops.drop_last()) {
            Err(error) => Err(error),
            Ok(claimed) => match ops.last() {
                WriteOpView::UpsertPlacement(placement) => match placement.link_id {
                    Some(link) => if claimed.dom().contains(link) && claimed[link]
                        != placement.handle {
                        Err(rebind(collection, link, source, claimed[link], placement.handle))
                    } else {
                        Ok(claimed.insert(link, placement.handle))
                    },
                    None => Ok(claimed),
                },
                WriteOpView::DropPlacement { handle, reason, .. } => if reason
                    != PimdirDropReason::Deleted {
                    Ok(unclaimed(claimed, handle))
                } else {
                    Ok(claimed)
                },
                _ => Ok(claimed),
            },
        }
    }
}

/// The link ids a batch has claimed without those one handle claimed.
fn let_go(claimed: &TextMap<String>, handle: &str) -> (left: TextMap<String>)
    ensures
        left@ == unclaimed(claimed@, handle@),
{
    let n: usize = claimed.len();
    let ghost links = claimed.keys();
    let mut left: TextMap<String> = TextMap::new();
    let mut i: usize = 0;
    while i < n
        invariant
            i <= n,
            n == links.len(),
            links == claimed.keys(),
            forall|link: Text| #[trigger]
                left@.dom().contains(link) <==> (links.take(i as int).contains(link)
                    && claimed@[link] != handle@),
            forall|link: Text| #[trigger]
                left@.dom().contains(link) ==> left@[link] == claimed@[link],
        decreases n - i,
    {
        let link = claimed.key_at(i);
        let bound = claimed.value_at(i);
        proof {
            assert(links.take(i + 1) =~= links.take(i as int).push(link@));
        }
        if !text_same(bound.as_str(), handle) {
            left.insert(link.clone(), bound.clone());
        }
        proof {
            assert forall|other: Text| #[trigger] left@.dom().contains(other) <==> (links.take(
                i + 1,
            ).contains(other) && claimed@[other] != handle@) by {
                let shorter = links.take(i as int);
                let longer = links.take(i + 1);
                if shorter.contains(other) {
                    let k = shorter.index_of(other);
                    assert(longer[k] == other);
                }
                if longer.contains(other) && other != link@ {
                    let k = longer.index_of(other);
                    assert(shorter[k] == other);
                }
                assert(longer[i as int] == link@);
            }
        }
        i = i + 1;
    }
    proof {
        assert(links.take(i as int) =~= links);
        assert(left@ =~= unclaimed(claimed@, handle@)) by {
            assert forall|link: Text| left@.dom().contains(link) == unclaimed(
                claimed@,
                handle@,
            ).dom().contains(link) by {
                assert(links.to_set().contains(link) == links.contains(link));
            }
        }
    }
    left
}

/// Refuses a batch binding one link id to two handles, unless a
/// `Superseded` or `Rekeyed` drop between them licenses it.
pub fn refuse_colliding_upserts(
    collection: &str,
    source: &PimdirSourceId,
    ops: &Vec<PimdirWriteOp>,
) -> (done: Result<(), PimdirError>)
    ensures
        match claims(collection@, source@, ops.deep_view()) {
            Ok(_) => done is Ok,
            Err(error) => failed(done) == Some(error),
        },
{
    let ghost all = ops.deep_view();
    let mut claimed: TextMap<String> = TextMap::new();
    let mut i: usize = 0;
    while i < ops.len()
        invariant
            i <= ops.len(),
            all == ops.deep_view(),
            claims(collection@, source@, all.take(i as int)) == Ok::<Map<Text, Text>, ErrorView>(
                claimed@,
            ),
        decreases ops.len() - i,
    {
        proof {
            assert(all.take(i + 1).drop_last() =~= all.take(i as int));
            assert(all.take(i + 1).last() == ops@[i as int]@);
        }
        match &ops[i] {
            PimdirWriteOp::UpsertPlacement(placement) => {
                if let Some(link) = &placement.link_id {
                    let bound = match claimed.get(link.0.as_str()) {
                        Some(bound) => if text_same(bound.as_str(), placement.handle.0.as_str()) {
                            None
                        } else {
                            Some(bound.clone())
                        },
                        None => None,
                    };
                    if let Some(bound) = bound {
                        proof {
                            lemma_claims_stay_refused(collection@, source@, all, i + 1);
                        }
                        return Err(
                            PimdirError::Rebind {
                                collection: collection.to_owned(),
                                link_id: link.0.clone(),
                                source: source.0.clone(),
                                bound,
                                incoming: placement.handle.0.clone(),
                            },
                        );
                    }
                    claimed.insert(link.0.clone(), placement.handle.0.clone());
                }
            },
            PimdirWriteOp::DropPlacement { handle, reason, .. } => {
                if *reason != PimdirDropReason::Deleted {
                    claimed = let_go(&claimed, handle.0.as_str());
                }
            },
            _ => {},
        }
        i = i + 1;
    }
    assert(all.take(i as int) =~= all);
    Ok(())
}

proof fn lemma_claims_stay_refused(collection: Text, source: Text, ops: Seq<WriteOpView>, i: int)
    requires
        0 <= i <= ops.len(),
        claims(collection, source, ops.take(i)) is Err,
    ensures
        claims(collection, source, ops) == claims(collection, source, ops.take(i)),
    decreases ops.len() - i,
{
    if i < ops.len() {
        assert(ops.take(i + 1).drop_last() =~= ops.take(i));
        lemma_claims_stay_refused(collection, source, ops, i + 1);
    } else {
        assert(ops.take(i) =~= ops);
    }
}

/// The link ids one batch touches: its upserts' and the ones its drops and
/// upserted handles resolve to.
pub open spec fn touched(
    collection: Text,
    bound: Map<Text, Map<Text, Text>>,
    ops: Seq<WriteOpView>,
) -> Set<Text>
    decreases ops.len(),
{
    if ops.len() == 0 {
        Set::empty()
    } else {
        let before = touched(collection, bound, ops.drop_last());
        match ops.last() {
            WriteOpView::UpsertPlacement(placement) => with_some(
                with_some(before, placement.link_id),
                bound_to(bound, collection, placement.handle),
            ),
            WriteOpView::DropPlacement { handle, .. } => with_some(
                before,
                bound_to(bound, collection, handle),
            ),
            _ => before,
        }
    }
}

/// A set with a member more, where there is one.
pub open spec fn with_some(set: Set<Text>, member: Option<Text>) -> Set<Text> {
    match member {
        Some(member) => set.insert(member),
        None => set,
    }
}

/// The link ids one batch touches, in order; a handle nothing binds is left
/// out.
pub fn batch_links(
    collection: &str,
    bound: &TextMap<TextMap<String>>,
    ops: &Vec<PimdirWriteOp>,
) -> (links: Vec<String>)
    ensures
        links.deep_view() == in_order(touched(collection@, bound@, ops.deep_view())),
        links.deep_view().to_set() == touched(collection@, bound@, ops.deep_view()),
{
    let ghost all = ops.deep_view();
    let mut set = TextSet::new();
    let mut i: usize = 0;
    while i < ops.len()
        invariant
            i <= ops.len(),
            all == ops.deep_view(),
            set@ == touched(collection@, bound@, all.take(i as int)),
        decreases ops.len() - i,
    {
        proof {
            assert(all.take(i + 1).drop_last() =~= all.take(i as int));
            assert(all.take(i + 1).last() == ops@[i as int]@);
        }
        match &ops[i] {
            PimdirWriteOp::UpsertPlacement(placement) => {
                if let Some(link) = &placement.link_id {
                    set.insert(link.0.clone());
                }
                if let Some(link) = link_for_handle(bound, collection, placement.handle.0.as_str()) {
                    set.insert(link.0);
                }
            },
            PimdirWriteOp::DropPlacement { handle, .. } => {
                if let Some(link) = link_for_handle(bound, collection, handle.0.as_str()) {
                    set.insert(link.0);
                }
            },
            _ => {},
        }
        i = i + 1;
    }
    assert(all.take(i as int) =~= all);
    members(&set)
}

/// The members of a set, in order.
fn members(set: &TextSet) -> (list: Vec<String>)
    ensures
        list.deep_view() == in_order(set@),
        list.deep_view().to_set() == set@,
{
    let n: usize = set.len();
    let ghost all = set.list();
    let mut list: Vec<String> = Vec::new();
    let mut i: usize = 0;
    assert(list.deep_view() =~= all.take(0));
    while i < n
        invariant
            i <= n,
            n == all.len(),
            all == set.list(),
            list.deep_view() == all.take(i as int),
        decreases n - i,
    {
        push_to(&mut list, set.at(i).clone());
        assert(list.deep_view() =~= all.take(i + 1));
        i = i + 1;
    }
    assert(all.take(i as int) =~= all);
    list
}

/// Whether two items' own columns match, bindings and summary aside. Every
/// column an update writes is here: one left out could never change again.
pub open spec fn same_columns(a: HubItemView, b: HubItemView) -> bool {
    &&& a.flags == b.flags
    &&& a.object == b.object
    &&& a.sort_key == b.sort_key
    &&& a.level == b.level
    &&& a.deleted == b.deleted
    &&& a.conflicted == b.conflicted
    &&& a.conflict_object == b.conflict_object
}

/// Items whose columns match write the same row, so an update that is not
/// made loses nothing.
pub proof fn lemma_matching_columns_write_one_row(link: Text, a: HubItemView, b: HubItemView)
    requires
        same_columns(a, b),
    ensures
        row_of_item(link, a) == row_of_item(link, b),
{
}

/// Whether two items' own columns match, bindings and summary aside.
pub fn item_columns_eq(a: &PimdirHubItem, b: &PimdirHubItem) -> (same: bool)
    ensures
        same == same_columns(a@, b@),
{
    a.flags.same(&b.flags) && a.object == b.object && a.sort_key == b.sort_key && a.level == b.level
        && a.deleted == b.deleted && a.conflicted == b.conflicted && a.conflict_object
        == b.conflict_object
}

/// Whether two bases say the same.
fn same_base(a: &Option<PimdirBase>, b: &Option<PimdirBase>) -> (same: bool)
    ensures
        same == (a.deep_view() == b.deep_view()),
{
    match (a, b) {
        (Some(a), Some(b)) => {
            assert(a@ == b@ <==> a@.flags == b@.flags && a@.revision == b@.revision && a@.object
                == b@.object);
            a.flags.same(&b.flags) && same_option(&a.revision, &b.revision) && a.object == b.object
        },
        (None, None) => true,
        _ => false,
    }
}

/// Whether two bindings say the same.
fn same_binding(a: &PimdirBinding, b: &PimdirBinding) -> (same: bool)
    ensures
        same == (a@ == b@),
{
    a.handle == b.handle && same_base(&a.base, &b.base) && a.conflicted == b.conflicted
        && same_option(&a.conflict_revision, &b.conflict_revision) && a.conflict_object
        == b.conflict_object && a.shared_object == b.shared_object
}

/// Whether two lists of texts are the same.
fn same_texts(a: &Vec<String>, b: &Vec<String>) -> (same: bool)
    ensures
        same == (a.deep_view() == b.deep_view()),
{
    if a.len() != b.len() {
        assert(a.deep_view().len() != b.deep_view().len());
        return false;
    }
    let mut i: usize = 0;
    while i < a.len()
        invariant
            i <= a.len(),
            a.len() == b.len(),
            forall|j: int| 0 <= j < i ==> a.deep_view()[j] == b.deep_view()[j],
        decreases a.len() - i,
    {
        if !text_same(a[i].as_str(), b[i].as_str()) {
            assert(a.deep_view()[i as int] != b.deep_view()[i as int]);
            return false;
        }
        i = i + 1;
    }
    assert(a.deep_view() =~= b.deep_view());
    true
}

/// Whether two addresses are the same.
fn same_address(a: &PimdirAddress, b: &PimdirAddress) -> (same: bool)
    ensures
        same == (a@ == b@),
{
    text_same(a.address.as_str(), b.address.as_str()) && same_option(&a.name, &b.name)
}

/// Whether two lists of addresses are the same.
fn same_addresses(a: &Vec<PimdirAddress>, b: &Vec<PimdirAddress>) -> (same: bool)
    ensures
        same == (a.deep_view() == b.deep_view()),
{
    if a.len() != b.len() {
        assert(a.deep_view().len() != b.deep_view().len());
        return false;
    }
    let mut i: usize = 0;
    while i < a.len()
        invariant
            i <= a.len(),
            a.len() == b.len(),
            forall|j: int| 0 <= j < i ==> a.deep_view()[j] == b.deep_view()[j],
        decreases a.len() - i,
    {
        if !same_address(&a[i], &b[i]) {
            assert(a.deep_view()[i as int] != b.deep_view()[i as int]);
            return false;
        }
        i = i + 1;
    }
    assert(a.deep_view() =~= b.deep_view());
    true
}

/// Whether two organizers are the same.
fn same_person(a: &Option<PimdirAddress>, b: &Option<PimdirAddress>) -> (same: bool)
    ensures
        same == (a.deep_view() == b.deep_view()),
{
    match (a, b) {
        (Some(a), Some(b)) => same_address(a, b),
        (None, None) => true,
        _ => false,
    }
}

/// Whether two times are the same.
fn same_time(a: &Option<PimdirTime>, b: &Option<PimdirTime>) -> (same: bool)
    ensures
        same == (a.deep_view() == b.deep_view()),
{
    match (a, b) {
        (Some(a), Some(b)) => {
            assert(a@ == b@ <==> a@.value == b@.value && a@.tzid == b@.tzid && a@.date == b@.date);
            text_same(a.value.as_str(), b.value.as_str()) && same_option(&a.tzid, &b.tzid) && a.date
                == b.date
        },
        (None, None) => true,
        _ => false,
    }
}

/// Whether two summaries say the same.
pub fn same_summary(a: &PimdirSummary, b: &PimdirSummary) -> (same: bool)
    ensures
        same == (a@ == b@),
{
    match (a, b) {
        (PimdirSummary::Mail(a), PimdirSummary::Mail(b)) => {
            let same = same_option(&a.message_id, &b.message_id) && same_texts(
                &a.in_reply_to,
                &b.in_reply_to,
            ) && text_same(a.subject.as_str(), b.subject.as_str()) && same_option(
                &a.sender,
                &b.sender,
            ) && same_option(&a.sender_name, &b.sender_name) && same_option(&a.date, &b.date)
                && a.size == b.size && a.attachment == b.attachment && same_addresses(
                &a.from,
                &b.from,
            ) && same_addresses(&a.to, &b.to) && same_addresses(&a.cc, &b.cc) && same_addresses(
                &a.bcc,
                &b.bcc,
            );
            same
        },
        (PimdirSummary::Contact(a), PimdirSummary::Contact(b)) => {
            same_option(&a.uid, &b.uid) && text_same(a.full_name.as_str(), b.full_name.as_str())
                && same_option(&a.kind, &b.kind) && same_option(&a.org, &b.org) && same_addresses(
                &a.emails,
                &b.emails,
            )
        },
        (PimdirSummary::Event(a), PimdirSummary::Event(b)) => {
            same_option(&a.uid, &b.uid) && text_same(a.summary.as_str(), b.summary.as_str())
                && same_option(&a.location, &b.location) && same_time(&a.dtstart, &b.dtstart)
                && same_option(&a.dtend, &b.dtend) && a.recurring == b.recurring && same_option(
                &a.until,
                &b.until,
            ) && same_person(&a.organizer, &b.organizer) && same_addresses(
                &a.attendees,
                &b.attendees,
            )
        },
        (PimdirSummary::Task(a), PimdirSummary::Task(b)) => {
            same_option(&a.uid, &b.uid) && text_same(a.summary.as_str(), b.summary.as_str())
                && same_time(&a.dtstart, &b.dtstart) && same_time(&a.due, &b.due) && same_option(
                &a.status,
                &b.status,
            ) && same_option(&a.completed, &b.completed) && a.percent == b.percent && a.recurring
                == b.recurring && same_option(&a.until, &b.until) && same_person(
                &a.organizer,
                &b.organizer,
            ) && same_addresses(&a.attendees, &b.attendees)
        },
        (PimdirSummary::Journal(a), PimdirSummary::Journal(b)) => {
            same_option(&a.uid, &b.uid) && text_same(a.summary.as_str(), b.summary.as_str())
                && same_time(&a.dtstart, &b.dtstart) && same_person(&a.organizer, &b.organizer)
                && same_addresses(&a.attendees, &b.attendees)
        },
        _ => false,
    }
}

/// Whether two optional summaries say the same.
fn same_summaries(a: &Option<PimdirSummary>, b: &Option<PimdirSummary>) -> (same: bool)
    ensures
        same == (a.deep_view() == b.deep_view()),
{
    match (a, b) {
        (Some(a), Some(b)) => same_summary(a, b),
        (None, None) => true,
        _ => false,
    }
}

/// How many of the first people play a role.
pub open spec fn count_role(
    list: Seq<(PimdirAddressRole, AddressView)>,
    role: PimdirAddressRole,
) -> nat
    decreases list.len(),
{
    if list.len() == 0 {
        0
    } else {
        count_role(list.drop_last(), role) + if list.last().0 == role {
            1nat
        } else {
            0nat
        }
    }
}

/// The address rows of an item, each at its position under its role.
pub open spec fn address_rows(
    collection: Text,
    link: Text,
    list: Seq<(PimdirAddressRole, AddressView)>,
) -> Seq<RowOpView>
    decreases list.len(),
{
    if list.len() == 0 {
        Seq::empty()
    } else {
        let (role, person) = list.last();
        address_rows(collection, link, list.drop_last()).push(
            RowOpView::InsertAddress {
                collection,
                link_id: link,
                role: role.text(),
                position: count_role(list.drop_last(), role) as i64,
                address: person.address,
                name: person.name,
            },
        )
    }
}

/// The row of the old variant goes when the variant changed, where such a
/// row may leave its item.
pub open spec fn old_summary_rows(
    collection: Text,
    link: Text,
    before: Option<SummaryView>,
    after: Option<SummaryView>,
) -> Seq<RowOpView> {
    match before {
        Some(gone) => if !(gone is Mail || gone is Contact) && (after matches Some(kept)
            ==> table_of(kept) != table_of(gone)) {
            seq![RowOpView::DeleteSummary { collection, link_id: link, table: table_of(gone) }]
        } else {
            Seq::empty()
        },
        None => Seq::empty(),
    }
}

/// The rows a summary's change moves: none where it did not change; the
/// addresses are replaced as a set.
pub open spec fn summary_rows(
    collection: Text,
    link: Text,
    before: Option<SummaryView>,
    after: Option<SummaryView>,
) -> Seq<RowOpView> {
    if before == after {
        Seq::empty()
    } else {
        old_summary_rows(collection, link, before, after) + seq![
            RowOpView::ReplaceAddresses { collection, link_id: link },
        ] + match after {
            Some(summary) => seq![
                RowOpView::UpsertSummary {
                    collection,
                    link_id: link,
                    table: table_of(summary),
                    columns: columns_of(summary),
                },
            ] + address_rows(collection, link, summary.addresses()),
            None => Seq::empty(),
        }
    }
}

/// Adds the address rows of an item.
fn push_addresses(rows: &mut Vec<PimdirRowOp>, collection: &str, link: &str, summary: &PimdirSummary)
    ensures
        final(rows).deep_view() == old(rows).deep_view() + address_rows(
            collection@,
            link@,
            summary@.addresses(),
        ),
{
    let ghost start = rows.deep_view();
    let list = summary.addresses();
    let ghost all = people(list@);
    let mut i: usize = 0;
    assert(all.take(0) =~= Seq::empty());
    assert(start + Seq::<RowOpView>::empty() =~= start);
    while i < list.len()
        invariant
            i <= list.len(),
            all == people(list@),
            rows.deep_view() == start + address_rows(collection@, link@, all.take(i as int)),
        decreases list.len() - i,
    {
        let (role, address) = list[i];
        proof {
            assert(all.take(i + 1).drop_last() =~= all.take(i as int));
            assert(all.take(i + 1).last() == (role, address@));
        }
        let mut count: usize = 0;
        let mut k: usize = 0;
        assert(all.take(0) =~= Seq::empty());
        while k < i
            invariant
                k <= i < list.len(),
                count <= k,
                all == people(list@),
                count == count_role(all.take(k as int), role),
            decreases i - k,
        {
            proof {
                assert(all.take(k + 1).drop_last() =~= all.take(k as int));
                assert(all.take(k + 1).last() == all[k as int]);
            }
            let other = list[k].0;
            assert(all[k as int].0 == other);
            if same_role(other, role) {
                count = count + 1;
            }
            k = k + 1;
        }
        push_to(
            rows,
            PimdirRowOp::InsertAddress {
                collection: collection.to_owned(),
                link_id: link.to_owned(),
                role: role.as_str().to_owned(),
                position: #[verifier::truncate] (count as i64),
                address: address.address.clone(),
                name: address.name.clone(),
            },
        );
        assert(rows.deep_view() =~= start + address_rows(collection@, link@, all.take(i + 1)));
        i = i + 1;
    }
    assert(all.take(i as int) =~= all);
}

/// Whether two roles are the same.
fn same_role(a: PimdirAddressRole, b: PimdirAddressRole) -> (same: bool)
    ensures
        same == (a == b),
{
    match (a, b) {
        (PimdirAddressRole::From, PimdirAddressRole::From) => true,
        (PimdirAddressRole::To, PimdirAddressRole::To) => true,
        (PimdirAddressRole::Cc, PimdirAddressRole::Cc) => true,
        (PimdirAddressRole::Bcc, PimdirAddressRole::Bcc) => true,
        (PimdirAddressRole::Email, PimdirAddressRole::Email) => true,
        (PimdirAddressRole::Organizer, PimdirAddressRole::Organizer) => true,
        (PimdirAddressRole::Attendee, PimdirAddressRole::Attendee) => true,
        _ => false,
    }
}

/// Adds the summary and address rows that move when a summary does,
/// reporting whether it did: the row of the old variant goes when the
/// variant changed, the addresses are replaced as a set.
pub fn write_summary(
    rows: &mut Vec<PimdirRowOp>,
    collection: &str,
    link: &str,
    before: &Option<PimdirSummary>,
    after: &Option<PimdirSummary>,
) -> (moved: bool)
    ensures
        moved == (before.deep_view() != after.deep_view()),
        final(rows).deep_view() == old(rows).deep_view() + summary_rows(
            collection@,
            link@,
            before.deep_view(),
            after.deep_view(),
        ),
{
    let ghost start = rows.deep_view();
    if same_summaries(before, after) {
        assert(start + Seq::<RowOpView>::empty() =~= start);
        return false;
    }
    if let Some(gone) = before {
        let table = PimdirSummaryTable::of(gone);
        let leaves = match after {
            Some(kept) => PimdirSummaryTable::of(kept) != table,
            None => true,
        };
        if leaves && table.deletes() {
            push_to(
                rows,
                PimdirRowOp::DeleteSummary {
                    collection: collection.to_owned(),
                    link_id: link.to_owned(),
                    table,
                },
            );
        }
    }
    assert(rows.deep_view() =~= start + old_summary_rows(
        collection@,
        link@,
        before.deep_view(),
        after.deep_view(),
    ));
    push_to(
        rows,
        PimdirRowOp::ReplaceAddresses {
            collection: collection.to_owned(),
            link_id: link.to_owned(),
        },
    );
    if let Some(summary) = after {
        push_to(
            rows,
            PimdirRowOp::UpsertSummary {
                collection: collection.to_owned(),
                link_id: link.to_owned(),
                table: PimdirSummaryTable::of(summary),
                columns: summary_columns(summary),
            },
        );
        push_addresses(rows, collection, link, summary);
    }
    assert(rows.deep_view() =~= start + summary_rows(
        collection@,
        link@,
        before.deep_view(),
        after.deep_view(),
    ));
    true
}

/// What one source's binding comes to when an item's bindings change: it is
/// released, it stays, or moving it to another handle is refused.
pub open spec fn released(
    collection: Text,
    link: Text,
    before: HubItemView,
    after: HubItemView,
    licensed: Set<Text>,
    source: Text,
) -> Result<Seq<RowOpView>, ErrorView> {
    let bound = before.sources[source].handle;
    let gone = seq![RowOpView::DeleteBinding { collection, link_id: link, source }];
    if !after.sources.dom().contains(source) {
        Ok(gone)
    } else {
        let incoming = after.sources[source].handle;
        if incoming == bound {
            Ok(Seq::empty())
        } else if licensed.contains(bound) {
            Ok(gone)
        } else {
            Err(rebind(collection, link, source, bound, incoming))
        }
    }
}

/// The bindings the first sources release, or the first refusal.
pub open spec fn releases(
    collection: Text,
    link: Text,
    before: HubItemView,
    after: HubItemView,
    licensed: Set<Text>,
    sources: Seq<Text>,
) -> Result<Seq<RowOpView>, ErrorView>
    decreases sources.len(),
{
    if sources.len() == 0 {
        Ok(Seq::empty())
    } else {
        match releases(collection, link, before, after, licensed, sources.drop_last()) {
            Err(error) => Err(error),
            Ok(rows) => match released(
                collection,
                link,
                before,
                after,
                licensed,
                sources.last(),
            ) {
                Err(error) => Err(error),
                Ok(more) => Ok(rows + more),
            },
        }
    }
}

/// The bindings every item of the hub releases, in order, or the first
/// refusal.
pub open spec fn all_releases(
    collection: Text,
    before: Map<Text, HubItemView>,
    after: Map<Text, HubItemView>,
    licensed: Set<Text>,
    links: Seq<Text>,
) -> Result<Seq<RowOpView>, ErrorView>
    decreases links.len(),
{
    if links.len() == 0 {
        Ok(Seq::empty())
    } else {
        match all_releases(collection, before, after, licensed, links.drop_last()) {
            Err(error) => Err(error),
            Ok(rows) => {
                let link = links.last();
                if before.dom().contains(link) {
                    match releases(
                        collection,
                        link,
                        before[link],
                        after[link],
                        licensed,
                        in_order(before[link].sources.dom()),
                    ) {
                        Err(error) => Err(error),
                        Ok(more) => Ok(rows + more),
                    }
                } else {
                    Ok(rows)
                }
            },
        }
    }
}

/// What one source's binding writes when an item's bindings change.
pub open spec fn bound_rows(
    collection: Text,
    link: Text,
    before: HubItemView,
    after: HubItemView,
    licensed: Set<Text>,
    source: Text,
) -> Seq<RowOpView> {
    let binding = after.sources[source];
    let row = row_of_binding(link, source, binding);
    if !before.sources.dom().contains(source) {
        seq![RowOpView::InsertBinding { collection, row }]
    } else {
        let held = before.sources[source];
        if binding.handle != held.handle && licensed.contains(held.handle) {
            seq![RowOpView::InsertBinding { collection, row }]
        } else if held != binding {
            seq![RowOpView::UpdateBinding { collection, row }]
        } else {
            Seq::empty()
        }
    }
}

/// What the bindings of the first sources write.
pub open spec fn bindings_rows(
    collection: Text,
    link: Text,
    before: HubItemView,
    after: HubItemView,
    licensed: Set<Text>,
    sources: Seq<Text>,
) -> Seq<RowOpView>
    decreases sources.len(),
{
    if sources.len() == 0 {
        Seq::empty()
    } else {
        bindings_rows(collection, link, before, after, licensed, sources.drop_last()) + bound_rows(
            collection,
            link,
            before,
            after,
            licensed,
            sources.last(),
        )
    }
}

/// The binding rows of an item, one per source.
pub open spec fn binding_rows_of(link: Text, bindings: Map<Text, BindingView>, sources: Seq<Text>) -> Seq<
    BindingRowView,
>
    decreases sources.len(),
{
    if sources.len() == 0 {
        Seq::empty()
    } else {
        binding_rows_of(link, bindings, sources.drop_last()).push(
            row_of_binding(link, sources.last(), bindings[sources.last()]),
        )
    }
}

/// Whether no source holds an item.
pub open spec fn unbound(item: HubItemView) -> bool {
    item.sources.dom() =~= Set::empty()
}

/// What an item that no source holds any more writes.
pub open spec fn retention_rows(collection: Text, link: Text, source: Text) -> Seq<RowOpView> {
    seq![
        RowOpView::RetainItem { collection, link_id: link, source },
        RowOpView::DeleteItemBindings { collection, link_id: link },
        RowOpView::PurgeIfHeldElsewhere { collection, link_id: link },
    ]
}

/// What one item's change writes, its releases aside: a new item comes in
/// with its summary, unless nothing binds it; an item that was there is
/// updated where its columns moved, stamped where its summary alone did,
/// and retained where its last binding went.
pub open spec fn item_rows(
    collection: Text,
    source: Text,
    link: Text,
    before: Option<HubItemView>,
    after: HubItemView,
    licensed: Set<Text>,
) -> Seq<RowOpView> {
    match before {
        None => if unbound(after) {
            Seq::empty()
        } else {
            seq![
                RowOpView::AdmitItem {
                    collection,
                    row: row_of_item(link, after),
                    bindings: binding_rows_of(
                        link,
                        after.sources,
                        in_order(after.sources.dom()),
                    ),
                },
            ] + summary_rows(collection, link, None, after.summary)
        },
        Some(before) => {
            let moved = !same_columns(before, after);
            (if moved {
                seq![RowOpView::UpdateItem { collection, row: row_of_item(link, after) }]
            } else {
                Seq::empty()
            }) + summary_rows(collection, link, before.summary, after.summary) + (
            if before.summary != after.summary && !moved {
                seq![
                    RowOpView::StampItem { collection, link_id: link },
                    RowOpView::BumpNextChange,
                ]
            } else {
                Seq::empty()
            }) + bindings_rows(
                collection,
                link,
                before,
                after,
                licensed,
                in_order(after.sources.dom()),
            ) + (if unbound(after) && !unbound(before) {
                retention_rows(collection, link, source)
            } else {
                Seq::empty()
            })
        },
    }
}

/// An item of a hub, where it holds one.
pub open spec fn item_at(items: Map<Text, HubItemView>, link: Text) -> Option<HubItemView> {
    if items.dom().contains(link) {
        Some(items[link])
    } else {
        None
    }
}

/// What the items of the hub write, in order, releases aside.
pub open spec fn all_item_rows(
    collection: Text,
    source: Text,
    before: Map<Text, HubItemView>,
    after: Map<Text, HubItemView>,
    licensed: Set<Text>,
    links: Seq<Text>,
) -> Seq<RowOpView>
    decreases links.len(),
{
    if links.len() == 0 {
        Seq::empty()
    } else {
        all_item_rows(collection, source, before, after, licensed, links.drop_last()) + item_rows(
            collection,
            source,
            links.last(),
            item_at(before, links.last()),
            after[links.last()],
            licensed,
        )
    }
}

/// What the change from one hub to another writes: every release first,
/// then the items; or the refusal of a binding moved without a licence.
pub open spec fn diff_rows(
    collection: Text,
    source: Text,
    before: Map<Text, HubItemView>,
    after: Map<Text, HubItemView>,
    licensed: Set<Text>,
) -> Result<Seq<RowOpView>, ErrorView> {
    let links = in_order(after.dom());
    match all_releases(collection, before, after, licensed, links) {
        Err(error) => Err(error),
        Ok(released) => Ok(
            released + all_item_rows(collection, source, before, after, licensed, links),
        ),
    }
}

/// A result of listing rows, by value.
pub open spec fn rows_view(result: Result<Vec<PimdirRowOp>, PimdirError>) -> Result<
    Seq<RowOpView>,
    ErrorView,
> {
    match result {
        Ok(rows) => Ok(rows.deep_view()),
        Err(error) => Err(error@),
    }
}

proof fn lemma_releases_stay_refused(
    collection: Text,
    link: Text,
    before: HubItemView,
    after: HubItemView,
    licensed: Set<Text>,
    sources: Seq<Text>,
    i: int,
)
    requires
        0 <= i <= sources.len(),
        releases(collection, link, before, after, licensed, sources.take(i)) is Err,
    ensures
        releases(collection, link, before, after, licensed, sources) == releases(
            collection,
            link,
            before,
            after,
            licensed,
            sources.take(i),
        ),
    decreases sources.len() - i,
{
    if i < sources.len() {
        assert(sources.take(i + 1).drop_last() =~= sources.take(i));
        lemma_releases_stay_refused(collection, link, before, after, licensed, sources, i + 1);
    } else {
        assert(sources.take(i) =~= sources);
    }
}

/// Lists the bindings one item's diff releases: a source that no longer
/// binds it, and a binding moving to another handle under a `Superseded` or
/// `Rekeyed` drop. A binding resolved to another handle without the licence
/// is the one write no diff may express and is refused.
pub fn release_bindings(
    collection: &str,
    link: &str,
    before: &PimdirHubItem,
    after: &PimdirHubItem,
    licensed: &TextSet,
) -> (rows: Result<Vec<PimdirRowOp>, PimdirError>)
    ensures
        rows_view(rows) == releases(
            collection@,
            link@,
            before@,
            after@,
            licensed@,
            in_order(before@.sources.dom()),
        ),
{
    let mut rows: Vec<PimdirRowOp> = Vec::new();
    let n: usize = before.sources.len();
    let ghost sources = before.sources.keys();
    let mut i: usize = 0;
    assert(rows.deep_view() =~= Seq::empty());
    while i < n
        invariant
            i <= n,
            n == sources.len(),
            sources == before.sources.keys(),
            sources == in_order(before@.sources.dom()),
            releases(collection@, link@, before@, after@, licensed@, sources.take(i as int)) == Ok::<
                Seq<RowOpView>,
                ErrorView,
            >(rows.deep_view()),
        decreases n - i,
    {
        let source = before.sources.key_at(i);
        let held = before.sources.value_at(i);
        let ghost start = rows.deep_view();
        proof {
            assert(sources.take(i + 1).drop_last() =~= sources.take(i as int));
            assert(sources.take(i + 1).last() == source@);
        }
        let gone = match after.sources.get(source.as_str()) {
            None => true,
            Some(binding) => if binding.handle == held.handle {
                false
            } else if licensed.contains(held.handle.0.as_str()) {
                true
            } else {
                proof {
                    lemma_releases_stay_refused(
                        collection@,
                        link@,
                        before@,
                        after@,
                        licensed@,
                        sources,
                        i + 1,
                    );
                }
                return Err(
                    PimdirError::Rebind {
                        collection: collection.to_owned(),
                        link_id: link.to_owned(),
                        source: source.clone(),
                        bound: held.handle.0.clone(),
                        incoming: binding.handle.0.clone(),
                    },
                );
            },
        };
        if gone {
            push_to(
                &mut rows,
                PimdirRowOp::DeleteBinding {
                    collection: collection.to_owned(),
                    link_id: link.to_owned(),
                    source: source.clone(),
                },
            );
            assert(rows.deep_view() =~= start + seq![
                RowOpView::DeleteBinding {
                    collection: collection@,
                    link_id: link@,
                    source: source@,
                },
            ]);
        } else {
            assert(rows.deep_view() =~= start + Seq::<RowOpView>::empty());
        }
        i = i + 1;
    }
    assert(sources.take(i as int) =~= sources);
    Ok(rows)
}

/// Adds what one item's bindings insert and update, the releases having
/// gone first.
pub fn save_bindings_diff(
    rows: &mut Vec<PimdirRowOp>,
    collection: &str,
    link: &str,
    before: &PimdirHubItem,
    after: &PimdirHubItem,
    licensed: &TextSet,
)
    ensures
        final(rows).deep_view() == old(rows).deep_view() + bindings_rows(
            collection@,
            link@,
            before@,
            after@,
            licensed@,
            in_order(after@.sources.dom()),
        ),
{
    let ghost start = rows.deep_view();
    let n: usize = after.sources.len();
    let ghost sources = after.sources.keys();
    let mut i: usize = 0;
    assert(start + Seq::<RowOpView>::empty() =~= start);
    while i < n
        invariant
            i <= n,
            n == sources.len(),
            sources == after.sources.keys(),
            rows.deep_view() == start + bindings_rows(
                collection@,
                link@,
                before@,
                after@,
                licensed@,
                sources.take(i as int),
            ),
        decreases n - i,
    {
        let source = after.sources.key_at(i);
        let binding = after.sources.value_at(i);
        let ghost so_far = rows.deep_view();
        proof {
            assert(sources.take(i + 1).drop_last() =~= sources.take(i as int));
            assert(sources.take(i + 1).last() == source@);
        }
        let (inserts, updates) = match before.sources.get(source.as_str()) {
            None => (true, false),
            Some(held) => if !(binding.handle == held.handle) && licensed.contains(
                held.handle.0.as_str(),
            ) {
                (true, false)
            } else {
                (false, !same_binding(held, binding))
            },
        };
        if inserts {
            push_to(
                rows,
                PimdirRowOp::InsertBinding {
                    collection: collection.to_owned(),
                    row: binding_columns(link, source.as_str(), binding),
                },
            );
        } else if updates {
            push_to(
                rows,
                PimdirRowOp::UpdateBinding {
                    collection: collection.to_owned(),
                    row: binding_columns(link, source.as_str(), binding),
                },
            );
        }
        assert(rows.deep_view() =~= so_far + bound_rows(
            collection@,
            link@,
            before@,
            after@,
            licensed@,
            source@,
        ));
        assert(rows.deep_view() =~= start + bindings_rows(
            collection@,
            link@,
            before@,
            after@,
            licensed@,
            sources.take(i + 1),
        ));
        i = i + 1;
    }
    assert(sources.take(i as int) =~= sources);
}

/// The binding rows of an item.
fn bindings_of(link: &str, item: &PimdirHubItem) -> (rows: Vec<PimdirBindingRow>)
    ensures
        rows.deep_view() == binding_rows_of(
            link@,
            item@.sources,
            in_order(item@.sources.dom()),
        ),
{
    let mut rows: Vec<PimdirBindingRow> = Vec::new();
    let n: usize = item.sources.len();
    let ghost sources = item.sources.keys();
    let mut i: usize = 0;
    assert(rows.deep_view() =~= Seq::empty());
    while i < n
        invariant
            i <= n,
            n == sources.len(),
            sources == item.sources.keys(),
            rows.deep_view() == binding_rows_of(link@, item@.sources, sources.take(i as int)),
        decreases n - i,
    {
        let source = item.sources.key_at(i);
        let binding = item.sources.value_at(i);
        proof {
            assert(sources.take(i + 1).drop_last() =~= sources.take(i as int));
            assert(sources.take(i + 1).last() == source@);
        }
        push_to(&mut rows, binding_columns(link, source.as_str(), binding));
        i = i + 1;
    }
    assert(sources.take(i as int) =~= sources);
    rows
}

proof fn lemma_five_parts(
    start: Seq<RowOpView>,
    a: Seq<RowOpView>,
    b: Seq<RowOpView>,
    c: Seq<RowOpView>,
    d: Seq<RowOpView>,
    e: Seq<RowOpView>,
)
    ensures
        start + a + b + c + d + e == start + (a + b + c + d + e),
{
    assert(start + a + b + c + d + e =~= start + (a + b + c + d + e));
}

/// Adds what a new item writes.
fn save_new_item(
    rows: &mut Vec<PimdirRowOp>,
    collection: &str,
    source: &PimdirSourceId,
    link: &str,
    after: &PimdirHubItem,
    licensed: &TextSet,
)
    ensures
        final(rows).deep_view() == old(rows).deep_view() + item_rows(
            collection@,
            source@,
            link@,
            None,
            after@,
            licensed@,
        ),
{
    let ghost start = rows.deep_view();
    if after.sources.is_empty() {
        assert(start + Seq::<RowOpView>::empty() =~= start);
        return ;
    }
    push_to(
        rows,
        PimdirRowOp::AdmitItem {
            collection: collection.to_owned(),
            row: item_columns(link, after),
            bindings: bindings_of(link, after),
        },
    );
    let ghost row = rows.deep_view().last();
    let _ = write_summary(rows, collection, link, &None, &after.summary);
    proof {
        let more = summary_rows(collection@, link@, None, after@.summary);
        assert(start.push(row) + more =~= start + (seq![row] + more));
    }
}

/// Adds what an item that no source holds any more writes.
fn retain_item(
    rows: &mut Vec<PimdirRowOp>,
    collection: &str,
    link: &str,
    source: &PimdirSourceId,
)
    ensures
        final(rows).deep_view() == old(rows).deep_view() + retention_rows(
            collection@,
            link@,
            source@,
        ),
{
    let ghost start = rows.deep_view();
    push_to(
        rows,
        PimdirRowOp::RetainItem {
            collection: collection.to_owned(),
            link_id: link.to_owned(),
            source: source.0.clone(),
        },
    );
    push_to(
        rows,
        PimdirRowOp::DeleteItemBindings {
            collection: collection.to_owned(),
            link_id: link.to_owned(),
        },
    );
    push_to(
        rows,
        PimdirRowOp::PurgeIfHeldElsewhere {
            collection: collection.to_owned(),
            link_id: link.to_owned(),
        },
    );
    assert(rows.deep_view() =~= start + retention_rows(collection@, link@, source@));
}

/// Adds the stamp of an item whose summary alone moved.
fn stamp_item(rows: &mut Vec<PimdirRowOp>, collection: &str, link: &str)
    ensures
        final(rows).deep_view() == old(rows).deep_view() + seq![
            RowOpView::StampItem { collection: collection@, link_id: link@ },
            RowOpView::BumpNextChange,
        ],
{
    let ghost start = rows.deep_view();
    push_to(
        rows,
        PimdirRowOp::StampItem { collection: collection.to_owned(), link_id: link.to_owned() },
    );
    push_to(rows, PimdirRowOp::BumpNextChange);
    assert(rows.deep_view() =~= start + seq![
        RowOpView::StampItem { collection: collection@, link_id: link@ },
        RowOpView::BumpNextChange,
    ]);
}

/// Adds what an item that was there writes, its releases aside.
fn save_held_item(
    rows: &mut Vec<PimdirRowOp>,
    collection: &str,
    source: &PimdirSourceId,
    link: &str,
    before: &PimdirHubItem,
    after: &PimdirHubItem,
    licensed: &TextSet,
)
    ensures
        final(rows).deep_view() == old(rows).deep_view() + item_rows(
            collection@,
            source@,
            link@,
            Some(before@),
            after@,
            licensed@,
        ),
{
    let ghost start = rows.deep_view();
    let moved = !item_columns_eq(before, after);
    let ghost update: Seq<RowOpView> = if moved {
        seq![RowOpView::UpdateItem { collection: collection@, row: row_of_item(link@, after@) }]
    } else {
        Seq::empty()
    };
    if moved {
        push_to(
            rows,
            PimdirRowOp::UpdateItem {
                collection: collection.to_owned(),
                row: item_columns(link, after),
            },
        );
    }
    let ghost first = rows.deep_view();
    assert(first =~= start + update);
    let resumed = write_summary(rows, collection, link, &before.summary, &after.summary);
    let ghost summary = summary_rows(collection@, link@, before@.summary, after@.summary);
    let ghost second = rows.deep_view();
    let ghost stamp: Seq<RowOpView> = if resumed && !moved {
        seq![
            RowOpView::StampItem { collection: collection@, link_id: link@ },
            RowOpView::BumpNextChange,
        ]
    } else {
        Seq::empty()
    };
    if resumed && !moved {
        stamp_item(rows, collection, link);
    }
    let ghost third = rows.deep_view();
    assert(third =~= second + stamp);
    save_bindings_diff(rows, collection, link, before, after, licensed);
    let ghost bindings = bindings_rows(
        collection@,
        link@,
        before@,
        after@,
        licensed@,
        in_order(after@.sources.dom()),
    );
    let ghost fourth = rows.deep_view();
    let free = after.sources.is_empty() && !before.sources.is_empty();
    let ghost retained: Seq<RowOpView> = if free {
        retention_rows(collection@, link@, source@)
    } else {
        Seq::empty()
    };
    if free {
        retain_item(rows, collection, link, source);
    }
    assert(rows.deep_view() =~= fourth + retained);
    proof {
        lemma_five_parts(start, update, summary, stamp, bindings, retained);
    }
}

/// Adds what one item's change writes, its releases aside.
fn save_item(
    rows: &mut Vec<PimdirRowOp>,
    collection: &str,
    source: &PimdirSourceId,
    link: &str,
    before: Option<&PimdirHubItem>,
    after: &PimdirHubItem,
    licensed: &TextSet,
)
    ensures
        final(rows).deep_view() == old(rows).deep_view() + item_rows(
            collection@,
            source@,
            link@,
            match before {
                Some(before) => Some(before@),
                None => None,
            },
            after@,
            licensed@,
        ),
{
    match before {
        None => save_new_item(rows, collection, source, link, after, licensed),
        Some(before) => save_held_item(rows, collection, source, link, before, after, licensed),
    }
}

proof fn lemma_all_releases_stay_refused(
    collection: Text,
    before: Map<Text, HubItemView>,
    after: Map<Text, HubItemView>,
    licensed: Set<Text>,
    links: Seq<Text>,
    i: int,
)
    requires
        0 <= i <= links.len(),
        all_releases(collection, before, after, licensed, links.take(i)) is Err,
    ensures
        all_releases(collection, before, after, licensed, links) == all_releases(
            collection,
            before,
            after,
            licensed,
            links.take(i),
        ),
    decreases links.len() - i,
{
    if i < links.len() {
        assert(links.take(i + 1).drop_last() =~= links.take(i));
        lemma_all_releases_stay_refused(collection, before, after, licensed, links, i + 1);
    } else {
        assert(links.take(i) =~= links);
    }
}

/// Lists the writes of the change from one hub to another, only those that
/// differ.
///
/// The bindings the diff releases go first, every item's, before any
/// binding is inserted: a handle names one item per source and the index is
/// unique, so a handle moving between two items in one batch has to leave
/// before it arrives. An item no source holds any more is retained, or
/// purged when the account holds it live in another collection, `source`
/// naming the side whose removal retired it. `licensed` carries the handles
/// this batch superseded or rekeyed, the one thing the two hubs cannot say:
/// a rebuilt spine and a duplicated identity produce the same diff.
pub fn save_hub_diff(
    collection: &str,
    source: &PimdirSourceId,
    before: &PimdirHub,
    after: &PimdirHub,
    licensed: &TextSet,
) -> (rows: Result<Vec<PimdirRowOp>, PimdirError>)
    ensures
        rows_view(rows) == diff_rows(
            collection@,
            source@,
            before@.items,
            after@.items,
            licensed@,
        ),
{
    let mut rows: Vec<PimdirRowOp> = Vec::new();
    let n: usize = after.items.len();
    let ghost links = after.items.keys();
    let mut i: usize = 0;
    assert(rows.deep_view() =~= Seq::empty());
    while i < n
        invariant
            i <= n,
            n == links.len(),
            links == after.items.keys(),
            links == in_order(after@.items.dom()),
            all_releases(
                collection@,
                before@.items,
                after@.items,
                licensed@,
                links.take(i as int),
            ) == Ok::<Seq<RowOpView>, ErrorView>(rows.deep_view()),
        decreases n - i,
    {
        let link = after.items.key_at(i);
        let item = after.items.value_at(i);
        proof {
            assert(links.take(i + 1).drop_last() =~= links.take(i as int));
            assert(links.take(i + 1).last() == link@);
        }
        if let Some(held) = before.items.get(link.as_str()) {
            match release_bindings(collection, link.as_str(), held, item, licensed) {
                Ok(more) => extend_with(&mut rows, more),
                Err(error) => {
                    proof {
                        lemma_all_releases_stay_refused(
                            collection@,
                            before@.items,
                            after@.items,
                            licensed@,
                            links,
                            i + 1,
                        );
                    }
                    return Err(error);
                },
            }
        }
        i = i + 1;
    }
    assert(links.take(i as int) =~= links);
    let ghost released = rows.deep_view();
    let mut k: usize = 0;
    assert(released + Seq::<RowOpView>::empty() =~= released);
    while k < n
        invariant
            k <= n,
            n == links.len(),
            links == after.items.keys(),
            rows.deep_view() == released + all_item_rows(
                collection@,
                source@,
                before@.items,
                after@.items,
                licensed@,
                links.take(k as int),
            ),
        decreases n - k,
    {
        let link = after.items.key_at(k);
        let item = after.items.value_at(k);
        proof {
            assert(links.take(k + 1).drop_last() =~= links.take(k as int));
            assert(links.take(k + 1).last() == link@);
        }
        let held = before.items.get(link.as_str());
        save_item(&mut rows, collection, source, link.as_str(), held, item, licensed);
        assert(rows.deep_view() =~= released + all_item_rows(
            collection@,
            source@,
            before@.items,
            after@.items,
            licensed@,
            links.take(k + 1),
        ));
        k = k + 1;
    }
    assert(links.take(k as int) =~= links);
    Ok(rows)
}

/// A hub that did not change writes nothing, and refuses nothing.
pub proof fn lemma_an_unchanged_hub_moves_no_row(
    collection: Text,
    source: Text,
    items: Map<Text, HubItemView>,
    licensed: Set<Text>,
)
    requires
        items.dom().finite(),
        forall|link: Text| #[trigger]
            items.dom().contains(link) ==> items[link].sources.dom().finite(),
    ensures
        diff_rows(collection, source, items, items, licensed) == Ok::<Seq<RowOpView>, ErrorView>(
            Seq::empty(),
        ),
{
    let links = in_order(items.dom());
    lemma_order_of_finite(items.dom());
    assert forall|i: int| 0 <= i < links.len() implies items.dom().contains(#[trigger] links[i]) by {
        assert(links.to_set().contains(links[i]));
    }
    lemma_unchanged_items(collection, source, items, licensed, links);
}

proof fn lemma_unchanged_items(
    collection: Text,
    source: Text,
    items: Map<Text, HubItemView>,
    licensed: Set<Text>,
    links: Seq<Text>,
)
    requires
        forall|i: int| 0 <= i < links.len() ==> items.dom().contains(#[trigger] links[i]),
        forall|link: Text| #[trigger]
            items.dom().contains(link) ==> items[link].sources.dom().finite(),
    ensures
        all_releases(collection, items, items, licensed, links) == Ok::<Seq<RowOpView>, ErrorView>(
            Seq::empty(),
        ),
        all_item_rows(collection, source, items, items, licensed, links) == Seq::<
            RowOpView,
        >::empty(),
    decreases links.len(),
{
    if links.len() > 0 {
        let link = links.last();
        assert(items.dom().contains(links[links.len() - 1]));
        assert forall|i: int| 0 <= i < links.drop_last().len() implies items.dom().contains(
            #[trigger] links.drop_last()[i],
        ) by {
            assert(links.drop_last()[i] == links[i]);
        }
        lemma_unchanged_items(collection, source, items, licensed, links.drop_last());
        let item = items[link];
        let sources = in_order(item.sources.dom());
        lemma_order_of_finite(item.sources.dom());
        assert forall|i: int| 0 <= i < sources.len() implies item.sources.dom().contains(
            #[trigger] sources[i],
        ) by {
            assert(sources.to_set().contains(sources[i]));
        }
        lemma_unchanged_bindings(collection, link, item, licensed, sources);
        assert(item_rows(collection, source, link, Some(item), item, licensed) =~= Seq::empty());
        assert(Seq::<RowOpView>::empty() + Seq::<RowOpView>::empty() =~= Seq::empty());
    }
}

proof fn lemma_unchanged_bindings(
    collection: Text,
    link: Text,
    item: HubItemView,
    licensed: Set<Text>,
    sources: Seq<Text>,
)
    requires
        forall|i: int| 0 <= i < sources.len() ==> item.sources.dom().contains(#[trigger] sources[i]),
    ensures
        releases(collection, link, item, item, licensed, sources) == Ok::<
            Seq<RowOpView>,
            ErrorView,
        >(Seq::empty()),
        bindings_rows(collection, link, item, item, licensed, sources) == Seq::<RowOpView>::empty(),
    decreases sources.len(),
{
    if sources.len() > 0 {
        assert(item.sources.dom().contains(sources[sources.len() - 1]));
        assert forall|i: int| 0 <= i < sources.drop_last().len() implies item.sources.dom().contains(
            #[trigger] sources.drop_last()[i],
        ) by {
            assert(sources.drop_last()[i] == sources[i]);
        }
        lemma_unchanged_bindings(collection, link, item, licensed, sources.drop_last());
        assert(Seq::<RowOpView>::empty() + Seq::<RowOpView>::empty() =~= Seq::empty());
    }
}

/// An optional text as a list of at most one.
pub open spec fn at_most_one(text: Option<Text>) -> Seq<Text> {
    match text {
        Some(text) => seq![text],
        None => Seq::empty(),
    }
}

/// The bodies the bindings of the first sources point at.
pub open spec fn binding_refs(bindings: Map<Text, BindingView>, sources: Seq<Text>) -> Seq<Text>
    decreases sources.len(),
{
    if sources.len() == 0 {
        Seq::empty()
    } else {
        let binding = bindings[sources.last()];
        binding_refs(bindings, sources.drop_last()) + at_most_one(
            match binding.base {
                Some(base) => base.object,
                None => None,
            },
        ) + at_most_one(stuck_on(binding))
    }
}

/// The bodies one item points at: its own, its conflict's, and those of its
/// bindings. A binding's shared body is never counted.
pub open spec fn item_refs(item: HubItemView) -> Seq<Text> {
    at_most_one(item.object) + at_most_one(item.conflict_object) + binding_refs(
        item.sources,
        in_order(item.sources.dom()),
    )
}

/// The bodies the first items of a hub point at.
pub open spec fn refs_of(items: Map<Text, HubItemView>, links: Seq<Text>) -> Seq<Text>
    decreases links.len(),
{
    if links.len() == 0 {
        Seq::empty()
    } else {
        refs_of(items, links.drop_last()) + item_refs(items[links.last()])
    }
}

/// Every reference a hub holds.
pub open spec fn hub_refs(hub: HubView) -> Seq<Text> {
    refs_of(hub.items, in_order(hub.items.dom()))
}

/// How often a list holds a text.
pub open spec fn occurrences(list: Seq<Text>, text: Text) -> nat
    decreases list.len(),
{
    if list.len() == 0 {
        0
    } else {
        occurrences(list.drop_last(), text) + if list.last() == text {
            1nat
        } else {
            0nat
        }
    }
}

/// Adds an optional hash to a list.
fn push_ref(list: &mut Vec<String>, hash: &Option<PimdirHash>)
    ensures
        final(list).deep_view() == old(list).deep_view() + at_most_one(hash.deep_view()),
{
    let ghost before = list.deep_view();
    if let Some(hash) = hash {
        push_to(list, hash.0.clone());
    }
    assert(list.deep_view() =~= before + at_most_one(hash.deep_view()));
}

/// Every reference a hub holds: every item's body and conflict body, every
/// binding's base body and, while conflicted, its diverging body. A
/// binding's `shared_object` is never counted.
pub fn object_refs(hub: &PimdirHub) -> (list: Vec<String>)
    ensures
        list.deep_view() == hub_refs(hub@),
{
    let mut list: Vec<String> = Vec::new();
    let n: usize = hub.items.len();
    let ghost links = hub.items.keys();
    let mut i: usize = 0;
    assert(list.deep_view() =~= Seq::empty());
    while i < n
        invariant
            i <= n,
            n == links.len(),
            links == hub.items.keys(),
            list.deep_view() == refs_of(hub@.items, links.take(i as int)),
        decreases n - i,
    {
        let item = hub.items.value_at(i);
        let ghost before = list.deep_view();
        proof {
            assert(links.take(i + 1).drop_last() =~= links.take(i as int));
            assert(links.take(i + 1).last() == links[i as int]);
        }
        push_ref(&mut list, &item.object);
        push_ref(&mut list, &item.conflict_object);
        let ghost own = list.deep_view();
        let m: usize = item.sources.len();
        let ghost sources = item.sources.keys();
        let mut k: usize = 0;
        assert(own + Seq::<Text>::empty() =~= own);
        while k < m
            invariant
                k <= m,
                m == sources.len(),
                sources == item.sources.keys(),
                list.deep_view() == own + binding_refs(item@.sources, sources.take(k as int)),
            decreases m - k,
        {
            let binding = item.sources.value_at(k);
            let ghost so_far = list.deep_view();
            proof {
                assert(sources.take(k + 1).drop_last() =~= sources.take(k as int));
                assert(sources.take(k + 1).last() == sources[k as int]);
            }
            match &binding.base {
                Some(base) => push_ref(&mut list, &base.object),
                None => {
                    assert(so_far + Seq::<Text>::empty() =~= so_far);
                },
            }
            if binding.conflicted {
                push_ref(&mut list, &binding.conflict_object);
            }
            assert(list.deep_view() =~= own + binding_refs(item@.sources, sources.take(k + 1)));
            k = k + 1;
        }
        assert(sources.take(k as int) =~= sources);
        assert(list.deep_view() =~= before + item_refs(item@));
        i = i + 1;
    }
    assert(links.take(i as int) =~= links);
    list
}

/// How often each text stands in a list.
fn tally(list: &Vec<String>) -> (counts: TextMap<u64>)
    ensures
        counts@.dom() == list.deep_view().to_set(),
        forall|text: Text| #[trigger]
            counts@.dom().contains(text) ==> counts@[text] == occurrences(list.deep_view(), text),
{
    let ghost all = list.deep_view();
    let mut counts: TextMap<u64> = TextMap::new();
    let mut i: usize = 0;
    assert(counts@.dom() =~= all.take(0).to_set());
    while i < list.len()
        invariant
            i <= list.len(),
            all == list.deep_view(),
            counts@.dom() == all.take(i as int).to_set(),
            forall|text: Text| #[trigger]
                counts@.dom().contains(text) ==> counts@[text] == occurrences(
                    all.take(i as int),
                    text,
                ) && counts@[text] <= i,
        decreases list.len() - i,
    {
        let hash = &list[i];
        let ghost before = counts@;
        proof {
            assert(all.take(i + 1).drop_last() =~= all.take(i as int));
            assert(all.take(i + 1).last() == hash@);
            assert(all.take(i + 1) =~= all.take(i as int).push(hash@));
            lemma_to_set_push(all.take(i as int), hash@);
            lemma_no_occurrence(all.take(i as int), hash@);
        }
        let count: u64 = match counts.get(hash.as_str()) {
            Some(count) => *count,
            None => 0,
        };
        counts.insert(hash.clone(), count + 1);
        assert(counts@.dom() =~= before.dom().insert(hash@));
        i = i + 1;
    }
    assert(all.take(i as int) =~= all);
    counts
}

proof fn lemma_to_set_push(list: Seq<Text>, item: Text)
    ensures
        list.push(item).to_set() == list.to_set().insert(item),
{
    let longer = list.push(item);
    assert forall|t: Text| longer.to_set().contains(t) == list.to_set().insert(item).contains(t) by {
        if list.contains(t) {
            let k = list.index_of(t);
            assert(longer[k] == t);
        }
        assert(longer[list.len() as int] == item);
    }
    assert(longer.to_set() =~= list.to_set().insert(item));
}

proof fn lemma_no_occurrence(list: Seq<Text>, text: Text)
    ensures
        !list.to_set().contains(text) ==> occurrences(list, text) == 0,
        list.to_set().contains(text) ==> occurrences(list, text) > 0,
        occurrences(list, text) <= list.len(),
    decreases list.len(),
{
    if list.len() > 0 {
        let before = list.drop_last();
        lemma_no_occurrence(before, text);
        assert(list =~= before.push(list.last()));
        lemma_to_set_push(before, list.last());
    } else {
        assert(!list.contains(text));
    }
}

/// By how much the count of a body moves.
pub open spec fn count_delta(before: Seq<Text>, after: Seq<Text>, hash: Text) -> int {
    occurrences(after, hash) - occurrences(before, hash)
}

/// The counts of the listed bodies that move.
pub open spec fn delta_rows(before: Seq<Text>, after: Seq<Text>, hashes: Seq<Text>) -> Seq<RowOpView>
    decreases hashes.len(),
{
    if hashes.len() == 0 {
        Seq::empty()
    } else {
        let hash = hashes.last();
        let rows = delta_rows(before, after, hashes.drop_last());
        if count_delta(before, after, hash) != 0 {
            rows.push(
                RowOpView::AdjustRefcount { hash, delta: count_delta(before, after, hash) as i64 },
            )
        } else {
            rows
        }
    }
}

/// The change between two reference lists as one delta per body that moved.
pub open spec fn refcount_rows(before: Seq<Text>, after: Seq<Text>) -> Seq<RowOpView> {
    delta_rows(before, after, in_order(before.to_set() + after.to_set()))
}

/// Every text of two lists.
fn union_of(a: &Vec<String>, b: &Vec<String>) -> (set: TextSet)
    ensures
        set@ == a.deep_view().to_set() + b.deep_view().to_set(),
{
    let ghost (all_a, all_b) = (a.deep_view(), b.deep_view());
    let mut set = TextSet::new();
    let mut i: usize = 0;
    assert(set@ =~= all_a.take(0).to_set());
    while i < a.len()
        invariant
            i <= a.len(),
            all_a == a.deep_view(),
            set@ == all_a.take(i as int).to_set(),
        decreases a.len() - i,
    {
        proof {
            assert(all_a.take(i + 1) =~= all_a.take(i as int).push(all_a[i as int]));
            lemma_to_set_push(all_a.take(i as int), all_a[i as int]);
        }
        set.insert(a[i].clone());
        i = i + 1;
    }
    assert(all_a.take(i as int) =~= all_a);
    let mut k: usize = 0;
    assert(set@ =~= all_a.to_set() + all_b.take(0).to_set());
    while k < b.len()
        invariant
            k <= b.len(),
            all_b == b.deep_view(),
            set@ == all_a.to_set() + all_b.take(k as int).to_set(),
        decreases b.len() - k,
    {
        proof {
            assert(all_b.take(k + 1) =~= all_b.take(k as int).push(all_b[k as int]));
            lemma_to_set_push(all_b.take(k as int), all_b[k as int]);
        }
        set.insert(b[k].clone());
        assert(set@ =~= all_a.to_set() + all_b.take(k + 1).to_set());
        k = k + 1;
    }
    assert(all_b.take(k as int) =~= all_b);
    set
}

/// Lists the change between two reference lists as per-hash deltas.
pub fn adjust_refcounts(before: &Vec<String>, after: &Vec<String>) -> (rows: Vec<PimdirRowOp>)
    ensures
        rows.deep_view() == refcount_rows(before.deep_view(), after.deep_view()),
{
    let ghost (was, is) = (before.deep_view(), after.deep_view());
    let olds = tally(before);
    let news = tally(after);
    let set = union_of(before, after);
    let n: usize = set.len();
    let ghost hashes = set.list();
    let mut rows: Vec<PimdirRowOp> = Vec::new();
    let mut i: usize = 0;
    assert(rows.deep_view() =~= Seq::empty());
    while i < n
        invariant
            i <= n,
            n == hashes.len(),
            hashes == set.list(),
            was == before.deep_view(),
            is == after.deep_view(),
            olds@.dom() == was.to_set(),
            news@.dom() == is.to_set(),
            forall|text: Text| #[trigger]
                olds@.dom().contains(text) ==> olds@[text] == occurrences(was, text),
            forall|text: Text| #[trigger]
                news@.dom().contains(text) ==> news@[text] == occurrences(is, text),
            rows.deep_view() == delta_rows(was, is, hashes.take(i as int)),
        decreases n - i,
    {
        let hash = set.at(i);
        proof {
            assert(hashes.take(i + 1).drop_last() =~= hashes.take(i as int));
            assert(hashes.take(i + 1).last() == hash@);
            lemma_no_occurrence(was, hash@);
            lemma_no_occurrence(is, hash@);
        }
        let old_count: u64 = match olds.get(hash.as_str()) {
            Some(count) => *count,
            None => 0,
        };
        let new_count: u64 = match news.get(hash.as_str()) {
            Some(count) => *count,
            None => 0,
        };
        if old_count != new_count {
            let delta: i128 = new_count as i128 - old_count as i128;
            push_to(
                &mut rows,
                PimdirRowOp::AdjustRefcount {
                    hash: hash.clone(),
                    delta: #[verifier::truncate] (delta as i64),
                },
            );
        }
        i = i + 1;
    }
    assert(hashes.take(i as int) =~= hashes);
    rows
}

/// By how much rows move the count of a body.
pub open spec fn moved_by(rows: Seq<RowOpView>, hash: Text) -> int
    decreases rows.len(),
{
    if rows.len() == 0 {
        0
    } else {
        moved_by(rows.drop_last(), hash) + match rows.last() {
            RowOpView::AdjustRefcount { hash: moved, delta } => if moved == hash {
                delta as int
            } else {
                0
            },
            _ => 0,
        }
    }
}

/// The counts follow the references: a body's count moves by as much as the
/// references to it did.
pub proof fn lemma_refcounts_follow_the_references(
    before: Seq<Text>,
    after: Seq<Text>,
    hash: Text,
)
    requires
        before.len() <= i64::MAX,
        after.len() <= i64::MAX,
    ensures
        moved_by(refcount_rows(before, after), hash) == occurrences(after, hash) - occurrences(
            before,
            hash,
        ),
{
    let set = before.to_set() + after.to_set();
    before.lemma_cardinality_of_set();
    after.lemma_cardinality_of_set();
    lemma_order_of_finite(set);
    let hashes = in_order(set);
    lemma_no_occurrence(before, hash);
    lemma_no_occurrence(after, hash);
    lemma_deltas_of(before, after, hashes, hash);
    assert(hashes.to_set().contains(hash) == hashes.contains(hash));
}

proof fn lemma_deltas_of(before: Seq<Text>, after: Seq<Text>, hashes: Seq<Text>, hash: Text)
    requires
        before.len() <= i64::MAX,
        after.len() <= i64::MAX,
        ascending(hashes),
    ensures
        moved_by(delta_rows(before, after, hashes), hash) == if hashes.contains(hash) {
            count_delta(before, after, hash)
        } else {
            0
        },
    decreases hashes.len(),
{
    if hashes.len() > 0 {
        let last = hashes.last();
        let rest = hashes.drop_last();
        lemma_deltas_of(before, after, rest, hash);
        lemma_no_occurrence(before, last);
        lemma_no_occurrence(after, last);
        assert(hashes =~= rest.push(last));
        if rest.contains(hash) {
            let k = rest.index_of(hash);
            assert(hashes[k] == hash);
            if last == hash {
                lemma_ascending_distinct(hashes, k, hashes.len() - 1);
            }
        }
        if hashes.contains(hash) && last != hash {
            let k = hashes.index_of(hash);
            assert(rest[k] == hash);
        }
        if last == hash {
            assert(hashes[hashes.len() - 1] == hash);
        }
        let rows = delta_rows(before, after, rest);
        if count_delta(before, after, last) != 0 {
            let row = RowOpView::AdjustRefcount {
                hash: last,
                delta: count_delta(before, after, last) as i64,
            };
            assert(rows.push(row).drop_last() =~= rows);
        }
    }
}

/// What folding a batch into a collection's hub writes, or its refusal.
pub open spec fn settled(
    collection: Text,
    source: Text,
    before: HubView,
    ops: Seq<WriteOpView>,
    licensed: Set<Text>,
) -> Result<Seq<RowOpView>, ErrorView> {
    let after = absorbed(before, source, ops);
    match claims(collection, source, ops) {
        Err(error) => Err(error),
        Ok(_) => match diff_rows(collection, source, before.items, after.items, licensed) {
            Err(error) => Err(error),
            Ok(rows) => Ok(rows + refcount_rows(hub_refs(before), hub_refs(after))),
        },
    }
}

/// Folds a batch into a collection's hub and lists the rows that move: the
/// diff between the hub before and after, and the reference counts that
/// follow it. A batch binding one link id to two handles is refused.
pub fn settle(
    collection: &str,
    source: &PimdirSourceId,
    before: &PimdirHub,
    ops: &Vec<PimdirWriteOp>,
    licensed: &TextSet,
) -> (rows: Result<Vec<PimdirRowOp>, PimdirError>)
    ensures
        rows_view(rows) == settled(collection@, source@, before@, ops.deep_view(), licensed@),
{
    match refuse_colliding_upserts(collection, source, ops) {
        Ok(_) => {},
        Err(error) => {
            return Err(error);
        },
    }
    let mut after = before.clone();
    after.absorb(source, ops.as_slice());
    assert(ops_view(ops@) =~= ops.deep_view());
    match save_hub_diff(collection, source, before, &after, licensed) {
        Ok(rows) => {
            let mut rows = rows;
            extend_with(&mut rows, adjust_refcounts(&object_refs(before), &object_refs(&after)));
            Ok(rows)
        },
        Err(error) => Err(error),
    }
}

/// Whether a key was derived by a writer: it states nothing the content
/// carries and never shares a public id.
pub open spec fn is_derived(link: Text) -> bool {
    "alt:"@.is_prefix_of(link) || "hash:"@.is_prefix_of(link) || "dup:"@.is_prefix_of(link)
}

/// Whether a text starts with another.
fn starts_with(text: &str, prefix: &str) -> (yes: bool)
    ensures
        yes == prefix@.is_prefix_of(text@),
{
    let chars = chars_of(text);
    let wanted = chars_of(prefix);
    if chars.len() < wanted.len() {
        return false;
    }
    let head = slice_subrange(chars.as_slice(), 0, wanted.len());
    spells(head, prefix)
}

/// Whether a key was derived by a writer.
pub fn is_derived_key(link: &str) -> (yes: bool)
    ensures
        yes == is_derived(link@),
{
    starts_with(link, "alt:") || starts_with(link, "hash:") || starts_with(link, "dup:")
}

/// The rows of bindings inserted one after another.
pub open spec fn inserted(collection: Text, bindings: Seq<BindingRowView>) -> Seq<RowOpView> {
    bindings.map_values(|row: BindingRowView| RowOpView::InsertBinding { collection, row })
}

/// The pins a retained row held, released.
pub open spec fn unpinned(pins: Seq<Text>) -> Seq<RowOpView> {
    pins.map_values(|hash: Text| RowOpView::AdjustRefcount { hash, delta: -1i64 })
}

/// What bringing an item in writes: the retained row holding its key is
/// revived, adopts the incoming content and lets go of the pins it held;
/// else the item is inserted under its public id.
pub open spec fn admitted(
    collection: Text,
    row: ItemRowView,
    bindings: Seq<BindingRowView>,
    retained: Option<(Option<Text>, Option<Text>)>,
    seq: i64,
) -> Seq<RowOpView> {
    (match retained {
        Some((object, conflict)) => seq![
            RowOpView::ReviveItem { collection, link_id: row.link_id },
            RowOpView::UpdateItem { collection, row },
        ] + unpinned(at_most_one(object) + at_most_one(conflict)),
        None => seq![RowOpView::InsertItem { collection, seq, row }],
    }) + inserted(collection, bindings)
}

/// Lists what bringing an item in writes, given the bodies the retained row
/// of its key pins, where there is such a row, and the public id a new one
/// takes.
pub fn insert_item(
    collection: &str,
    row: PimdirItemRow,
    bindings: Vec<PimdirBindingRow>,
    retained: Option<(Option<String>, Option<String>)>,
    seq: i64,
) -> (rows: Vec<PimdirRowOp>)
    ensures
        rows.deep_view() == admitted(
            collection@,
            row@,
            bindings.deep_view(),
            match retained {
                Some((object, conflict)) => Some((object.deep_view(), conflict.deep_view())),
                None => None,
            },
            seq,
        ),
{
    let mut rows: Vec<PimdirRowOp> = Vec::new();
    assert(rows.deep_view() =~= Seq::empty());
    match retained {
        Some((object, conflict)) => {
            let ghost pins = at_most_one(object.deep_view()) + at_most_one(conflict.deep_view());
            push_to(
                &mut rows,
                PimdirRowOp::ReviveItem {
                    collection: collection.to_owned(),
                    link_id: row.link_id.clone(),
                },
            );
            push_to(&mut rows, PimdirRowOp::UpdateItem { collection: collection.to_owned(), row });
            let ghost revived = rows.deep_view();
            if let Some(hash) = object {
                push_to(&mut rows, PimdirRowOp::AdjustRefcount { hash, delta: -1 });
            }
            if let Some(hash) = conflict {
                push_to(&mut rows, PimdirRowOp::AdjustRefcount { hash, delta: -1 });
            }
            assert(rows.deep_view() =~= revived + unpinned(pins));
        },
        None => {
            push_to(
                &mut rows,
                PimdirRowOp::InsertItem { collection: collection.to_owned(), seq, row },
            );
        },
    }
    let ghost start = rows.deep_view();
    let ghost all = bindings.deep_view();
    let mut i: usize = 0;
    assert(start + inserted(collection@, all.take(0)) =~= start);
    while i < bindings.len()
        invariant
            i <= bindings.len(),
            all == bindings.deep_view(),
            rows.deep_view() == start + inserted(collection@, all.take(i as int)),
        decreases bindings.len() - i,
    {
        push_to(
            &mut rows,
            PimdirRowOp::InsertBinding {
                collection: collection.to_owned(),
                row: bindings[i].clone(),
            },
        );
        assert(rows.deep_view() =~= start + inserted(collection@, all.take(i + 1)));
        i = i + 1;
    }
    assert(all.take(i as int) =~= all);
    rows
}

/// An upsert whose link id is stated, or whose handle is bound to one, is
/// planned last for its collection under that link id, and its probe goes;
/// no other collection's writes move.
pub proof fn lemma_a_named_upsert_is_planned(
    plan: PlanView,
    source: Text,
    account: Option<Text>,
    bound: Map<Text, Map<Text, Text>>,
    placement: PlacementView,
    link: Text,
    other: Text,
)
    requires
        placement.link_id == Some(link) || placement.link_id is None && bound.dom().contains(
            placement.collection,
        ) && bound[placement.collection].dom().contains(placement.handle)
            && bound[placement.collection][placement.handle] == link,
        other != placement.collection,
    ensures
        ({
            let collection = placement.collection;
            let after = plan_upsert(plan, source, account, bound, placement);
            let batch = after.hub[collection];
            let named = PlacementView { link_id: Some(link), ..placement };
            &&& after.hub.dom().contains(collection)
            &&& batch.len() > 0
            &&& batch.last() == WriteOpView::UpsertPlacement(named)
            &&& after.rows.last() == (RowOpView::DeleteProbe {
                collection,
                source,
                handle: placement.handle,
            })
            &&& after.rows.contains(RowOpView::EnsureCollection { collection, account })
            &&& after.hub.dom().contains(other) == plan.hub.dom().contains(other)
            &&& plan.hub.dom().contains(other) ==> after.hub[other] == plan.hub[other]
            &&& after.licensed == plan.licensed
            &&& after.dropped == plan.dropped
            &&& after.rekeyed == plan.rekeyed
        }),
{
    let after = plan_upsert(plan, source, account, bound, placement);
    assert(after.rows[after.rows.len() - 2] == (RowOpView::EnsureCollection {
        collection: placement.collection,
        account,
    }));
}

/// A handle bound to another link id lets go of it first, as a delete of
/// the handle would, unless the batch dropped the handle already.
pub proof fn lemma_a_handle_changes_its_link_by_letting_go(
    plan: PlanView,
    source: Text,
    account: Option<Text>,
    bound: Map<Text, Map<Text, Text>>,
    placement: PlacementView,
    link: Text,
    before: Text,
)
    requires
        placement.link_id == Some(link),
        bound.dom().contains(placement.collection),
        bound[placement.collection].dom().contains(placement.handle),
        bound[placement.collection][placement.handle] == before,
        plan.hub.dom().contains(placement.collection),
    ensures
        ({
            let collection = placement.collection;
            let handle = placement.handle;
            let after = plan_upsert(plan, source, account, bound, placement).hub[collection];
            let gone = plan.dropped.dom().contains(collection) && plan.dropped[collection].contains(
                handle,
            );
            &&& before != link && !gone ==> after == plan.hub[collection].push(
                WriteOpView::DropPlacement { collection, handle, reason: PimdirDropReason::Deleted },
            ).push(WriteOpView::UpsertPlacement(placement))
            &&& before == link || gone ==> after == plan.hub[collection].push(
                WriteOpView::UpsertPlacement(placement),
            )
        }),
{
}

/// A handle no link id is known of stays a probe, and no item is planned
/// for it.
pub proof fn lemma_an_unnamed_handle_stays_a_probe(
    plan: PlanView,
    source: Text,
    account: Option<Text>,
    bound: Map<Text, Map<Text, Text>>,
    placement: PlacementView,
)
    requires
        placement.link_id is None,
        bound.dom().contains(placement.collection) ==> !bound[placement.collection].dom().contains(
            placement.handle,
        ),
    ensures
        ({
            let after = plan_upsert(plan, source, account, bound, placement);
            &&& after.hub == plan.hub
            &&& after.rows.last() matches RowOpView::UpsertProbe {
                collection,
                source: of,
                handle,
                flags,
            } && collection == placement.collection && of == source && handle == placement.handle
                && (flags is Some <==> placement.flags is Some)
        }),
{
}

/// A drop is planned last for its collection with its reason; only a
/// delete licenses no rebinding, and only a rekey bumps the generation.
pub proof fn lemma_a_drop_is_planned(
    plan: PlanView,
    source: Text,
    collection: Text,
    handle: Text,
    reason: PimdirDropReason,
    other: Text,
)
    requires
        other != collection,
    ensures
        ({
            let after = plan_drop(plan, source, collection, handle, reason);
            &&& after.rows == plan.rows.push(RowOpView::DeleteProbe { collection, source, handle })
            &&& after.hub.dom().contains(collection)
            &&& after.hub[collection].len() > 0
            &&& after.hub[collection].last() == (WriteOpView::DropPlacement {
                collection,
                handle,
                reason,
            })
            &&& after.dropped.dom().contains(collection) && after.dropped[collection].contains(
                handle,
            )
            &&& reason == PimdirDropReason::Deleted ==> after.licensed == plan.licensed
            &&& reason != PimdirDropReason::Deleted ==> after.licensed.dom().contains(collection)
                && after.licensed[collection].contains(handle)
            &&& reason == PimdirDropReason::Rekeyed ==> after.rekeyed == plan.rekeyed.insert(
                collection,
            )
            &&& reason != PimdirDropReason::Rekeyed ==> after.rekeyed == plan.rekeyed
            &&& after.hub.dom().contains(other) == plan.hub.dom().contains(other)
            &&& plan.hub.dom().contains(other) ==> after.hub[other] == plan.hub[other]
        }),
{
}

/// A body is stored under its hash with its size, and a checkpoint is set
/// for the collection and the source it is of; neither plans an item.
pub proof fn lemma_objects_and_checkpoints_are_rows(
    plan: PlanView,
    source: Text,
    account: Option<Text>,
    bound: Map<Text, Map<Text, Text>>,
    op: WriteOpView,
)
    ensures
        ({
            let after = plan_one(plan, source, account, bound, op);
            &&& op matches WriteOpView::StoreObject { object, body } ==> after.rows
                == plan.rows.push(
                RowOpView::StoreObject { hash: object.hash, size: object.size as i64, body },
            ) && after.hub == plan.hub
            &&& op matches WriteOpView::SetCheckpoint { collection, checkpoint }
                ==> after.rows.last() == (RowOpView::SetCheckpoint {
                collection,
                source,
                checkpoint,
            }) && after.hub == plan.hub
        }),
{
}

/// Whether a write claims a link id for a handle.
pub open spec fn claims_for(op: WriteOpView, link: Text, handle: Text) -> bool {
    op matches WriteOpView::UpsertPlacement(placement) && placement.link_id == Some(link)
        && placement.handle == handle
}

/// Whether a write lets go of what a handle claimed.
pub open spec fn lets_go(op: WriteOpView, handle: Text) -> bool {
    op matches WriteOpView::DropPlacement { handle: dropped, reason, .. } && dropped == handle
        && reason != PimdirDropReason::Deleted
}

proof fn lemma_a_claim_stands(
    collection: Text,
    source: Text,
    ops: Seq<WriteOpView>,
    i: int,
    link: Text,
    handle: Text,
)
    requires
        0 <= i < ops.len(),
        claims_for(ops[i], link, handle),
        forall|j: int| i < j < ops.len() ==> !lets_go(#[trigger] ops[j], handle),
    ensures
        claims(collection, source, ops) matches Ok(claimed) ==> claimed.dom().contains(link)
            && claimed[link] == handle,
    decreases ops.len(),
{
    if i < ops.len() - 1 {
        let rest = ops.drop_last();
        assert(ops.last() == ops[ops.len() - 1]);
        assert(!lets_go(ops[ops.len() - 1], handle));
        assert forall|j: int| i < j < rest.len() implies !lets_go(#[trigger] rest[j], handle) by {
            assert(rest[j] == ops[j]);
        }
        lemma_a_claim_stands(collection, source, rest, i, link, handle);
    }
}

proof fn lemma_a_refusal_lasts(
    collection: Text,
    source: Text,
    ops: Seq<WriteOpView>,
    n: int,
)
    requires
        0 <= n <= ops.len(),
        claims(collection, source, ops.take(n)) is Err,
    ensures
        claims(collection, source, ops) == claims(collection, source, ops.take(n)),
    decreases ops.len(),
{
    if n == ops.len() {
        assert(ops.take(n) =~= ops);
    } else {
        assert(ops.drop_last().take(n) =~= ops.take(n));
        lemma_a_refusal_lasts(collection, source, ops.drop_last(), n);
    }
}

/// A batch that binds one link id to two handles is refused, unless the
/// first handle lets go of it in between: a delete is no letting go.
pub proof fn lemma_a_link_is_bound_once(
    collection: Text,
    source: Text,
    ops: Seq<WriteOpView>,
    i: int,
    j: int,
    link: Text,
    first: Text,
    second: Text,
)
    requires
        0 <= i < j < ops.len(),
        claims_for(ops[i], link, first),
        claims_for(ops[j], link, second),
        first != second,
        forall|k: int| i < k < j ==> !lets_go(#[trigger] ops[k], first),
    ensures
        claims(collection, source, ops) is Err,
{
    let before = ops.take(j);
    assert forall|k: int| i < k < before.len() implies !lets_go(#[trigger] before[k], first) by {
        assert(before[k] == ops[k]);
    }
    lemma_a_claim_stands(collection, source, before, i, link, first);
    let upto = ops.take(j + 1);
    assert(upto.drop_last() =~= before);
    assert(upto.last() == ops[j]);
    assert(claims(collection, source, upto) is Err);
    lemma_a_refusal_lasts(collection, source, ops, j + 1);
}

/// A claimed link id is claimed by a write of the batch.
proof fn lemma_a_claim_is_some_write(
    collection: Text,
    source: Text,
    ops: Seq<WriteOpView>,
    link: Text,
) -> (i: int)
    requires
        claims(collection, source, ops) matches Ok(claimed) && claimed.dom().contains(link),
    ensures
        0 <= i < ops.len(),
        claims_for(ops[i], link, claims(collection, source, ops)->Ok_0[link]),
    decreases ops.len(),
{
    let rest = ops.drop_last();
    let claimed = claims(collection, source, ops)->Ok_0;
    let last = ops.len() - 1;
    if claims_for(ops.last(), link, claimed[link]) {
        last
    } else {
        let i = lemma_a_claim_is_some_write(collection, source, rest, link);
        i
    }
}

/// Whether a batch claims a link id for one handle and then for another.
pub open spec fn clashes(ops: Seq<WriteOpView>, link: Text, bound: Text, incoming: Text) -> bool {
    &&& bound != incoming
    &&& exists|i: int, j: int|
        0 <= i < j < ops.len() && #[trigger] claims_for(ops[i], link, bound)
            && #[trigger] claims_for(ops[j], link, incoming)
}

/// A refused batch binds one link id to two handles, and the refusal names
/// them, the link id, the source and the collection.
pub proof fn lemma_a_refusal_names_its_clash(
    collection: Text,
    source: Text,
    ops: Seq<WriteOpView>,
)
    requires
        claims(collection, source, ops) is Err,
    ensures
        exists|link: Text, bound: Text, incoming: Text|
            #[trigger] clashes(ops, link, bound, incoming) && claims(collection, source, ops)
                == Err::<Map<Text, Text>, ErrorView>(
                ErrorView::Rebind { collection, link_id: link, source, bound, incoming },
            ),
    decreases ops.len(),
{
    let rest = ops.drop_last();
    if claims(collection, source, rest) is Err {
        lemma_a_refusal_names_its_clash(collection, source, rest);
        let (link, bound, incoming) = choose|link: Text, bound: Text, incoming: Text|
            #[trigger] clashes(rest, link, bound, incoming) && claims(collection, source, rest)
                == Err::<Map<Text, Text>, ErrorView>(
                ErrorView::Rebind { collection, link_id: link, source, bound, incoming },
            );
        let (i, j) = choose|i: int, j: int|
            0 <= i < j < rest.len() && #[trigger] claims_for(rest[i], link, bound)
                && #[trigger] claims_for(rest[j], link, incoming);
        assert(rest[i] == ops[i] && rest[j] == ops[j]);
        assert(claims_for(ops[i], link, bound) && claims_for(ops[j], link, incoming));
        assert(clashes(ops, link, bound, incoming));
    } else {
        let claimed = claims(collection, source, rest)->Ok_0;
        match ops.last() {
            WriteOpView::UpsertPlacement(placement) => {
                let link = placement.link_id->0;
                let i = lemma_a_claim_is_some_write(collection, source, rest, link);
                let j = ops.len() - 1;
                assert(rest[i] == ops[i]);
                assert(claims_for(ops[i], link, claimed[link]) && claims_for(
                    ops[j],
                    link,
                    placement.handle,
                ));
                assert(clashes(ops, link, claimed[link], placement.handle));
            },
            _ => {},
        }
    }
}

/// Whether a write of a batch touches a link id: it states it, or its
/// handle is bound to it.
pub open spec fn touches(
    collection: Text,
    bound: Map<Text, Map<Text, Text>>,
    op: WriteOpView,
    link: Text,
) -> bool {
    match op {
        WriteOpView::UpsertPlacement(placement) => placement.link_id == Some(link) || bound_to(
            bound,
            collection,
            placement.handle,
        ) == Some(link),
        WriteOpView::DropPlacement { handle, .. } => bound_to(bound, collection, handle) == Some(
            link,
        ),
        _ => false,
    }
}

/// A batch touches exactly the link ids its writes do.
pub proof fn lemma_a_batch_touches_what_its_writes_do(
    collection: Text,
    bound: Map<Text, Map<Text, Text>>,
    ops: Seq<WriteOpView>,
    link: Text,
)
    ensures
        touched(collection, bound, ops).contains(link) <==> exists|i: int|
            0 <= i < ops.len() && touches(collection, bound, #[trigger] ops[i], link),
    decreases ops.len(),
{
    if ops.len() > 0 {
        let rest = ops.drop_last();
        let last = ops.len() - 1;
        lemma_a_batch_touches_what_its_writes_do(collection, bound, rest, link);
        assert(ops.last() == ops[last]);
        if touched(collection, bound, rest).contains(link) {
            let i = choose|i: int|
                0 <= i < rest.len() && touches(collection, bound, #[trigger] rest[i], link);
            assert(rest[i] == ops[i]);
        }
        if exists|i: int| 0 <= i < ops.len() && touches(collection, bound, #[trigger] ops[i], link) {
            let i = choose|i: int|
                0 <= i < ops.len() && touches(collection, bound, #[trigger] ops[i], link);
            if i < last {
                assert(rest[i] == ops[i]);
            }
        }
        assert(touched(collection, bound, ops).contains(link) == (touched(
            collection,
            bound,
            rest,
        ).contains(link) || touches(collection, bound, ops[last], link)));
    }
}

/// An item the store did not hold comes in with its row, its bindings and
/// its summary, and one that nothing binds does not come in.
pub proof fn lemma_a_new_item_comes_in(
    collection: Text,
    source: Text,
    link: Text,
    after: HubItemView,
    licensed: Set<Text>,
    holder: Text,
)
    requires
        after.sources.dom().contains(holder),
    ensures
        ({
            let rows = item_rows(collection, source, link, None, after, licensed);
            &&& rows.len() > 0
            &&& rows[0] matches RowOpView::AdmitItem { collection: c, row, bindings } && c
                == collection && row == row_of_item(link, after)
            &&& after.summary is None ==> rows.len() == 1
            &&& after.summary matches Some(summary) ==> rows.contains(
                RowOpView::UpsertSummary {
                    collection,
                    link_id: link,
                    table: table_of(summary),
                    columns: columns_of(summary),
                },
            )
        }),
        item_rows(
            collection,
            source,
            link,
            None,
            HubItemView { sources: Map::empty(), ..after },
            licensed,
        ).len() == 0,
{
    assert(!unbound(after)) by {
        assert(!Set::<Text>::empty().contains(holder));
    }
    let rows = item_rows(collection, source, link, None, after, licensed);
    if let Some(summary) = after.summary {
        lemma_a_changed_summary_is_written(collection, link, None, after.summary);
        let more = summary_rows(collection, link, None, after.summary);
        let row = RowOpView::UpsertSummary {
            collection,
            link_id: link,
            table: table_of(summary),
            columns: columns_of(summary),
        };
        let k = choose|k: int| 0 <= k < more.len() && more[k] == row;
        assert(rows[k + 1] == row);
    } else {
        assert(summary_rows(collection, link, None, after.summary).len() == 0);
    }
    let none = HubItemView { sources: Map::empty(), ..after };
    assert(none.sources.dom() =~= Set::empty());
}

/// A summary that changed replaces the item's addresses and is written to
/// its table; one that did not moves no row.
pub proof fn lemma_a_changed_summary_is_written(
    collection: Text,
    link: Text,
    before: Option<SummaryView>,
    after: Option<SummaryView>,
)
    ensures
        ({
            let rows = summary_rows(collection, link, before, after);
            &&& before == after ==> rows.len() == 0
            &&& before != after ==> rows.contains(
                RowOpView::ReplaceAddresses { collection, link_id: link },
            )
            &&& before != after && after is Some ==> rows.contains(
                RowOpView::UpsertSummary {
                    collection,
                    link_id: link,
                    table: table_of(after->0),
                    columns: columns_of(after->0),
                },
            )
        }),
{
    if before != after {
        let rows = summary_rows(collection, link, before, after);
        let n = old_summary_rows(collection, link, before, after).len() as int;
        assert(rows[n] == (RowOpView::ReplaceAddresses { collection, link_id: link }));
        if let Some(summary) = after {
            assert(rows[n + 1] == (RowOpView::UpsertSummary {
                collection,
                link_id: link,
                table: table_of(summary),
                columns: columns_of(summary),
            }));
        }
    }
}

/// Every person of a summary has a row under their role, numbered among
/// those of the role as they stand in the document.
pub proof fn lemma_every_person_has_a_row(
    collection: Text,
    link: Text,
    list: Seq<(PimdirAddressRole, AddressView)>,
    i: int,
)
    requires
        0 <= i < list.len(),
    ensures
        address_rows(collection, link, list).len() == list.len(),
        address_rows(collection, link, list)[i] matches RowOpView::InsertAddress {
            collection: c,
            link_id,
            role,
            position,
            address,
            name,
        } && c == collection && link_id == link && role == list[i].0.text() && address
            == list[i].1.address && name == list[i].1.name && position == count_role(
            list.take(i),
            list[i].0,
        ) as i64,
    decreases list.len(),
{
    let rest = list.drop_last();
    if rest.len() > 0 {
        if i < list.len() - 1 {
            lemma_every_person_has_a_row(collection, link, rest, i);
            assert(rest.take(i) =~= list.take(i));
        } else {
            lemma_every_person_has_a_row(collection, link, rest, 0);
            assert(list.take(i) =~= rest);
        }
    } else {
        assert(address_rows(collection, link, rest).len() == 0);
        assert(list.take(i) =~= rest);
    }
}

/// The positions of a role count from zero, one by one.
pub proof fn lemma_positions_count_on(
    list: Seq<(PimdirAddressRole, AddressView)>,
    i: int,
    role: PimdirAddressRole,
)
    requires
        0 <= i < list.len(),
    ensures
        count_role(list.take(0), role) == 0,
        list[i].0 == role ==> count_role(list.take(i + 1), role) == count_role(list.take(i), role)
            + 1,
        list[i].0 != role ==> count_role(list.take(i + 1), role) == count_role(list.take(i), role),
{
    assert(list.take(i + 1).drop_last() =~= list.take(i));
}

/// A binding the item no longer has is deleted, one that keeps its handle
/// stays, and one that moves to another handle is refused unless the batch
/// licensed the handle it leaves.
pub proof fn lemma_a_binding_moves_only_under_a_licence(
    collection: Text,
    link: Text,
    before: HubItemView,
    after: HubItemView,
    licensed: Set<Text>,
    source: Text,
)
    requires
        before.sources.dom().contains(source),
    ensures
        ({
            let out = released(collection, link, before, after, licensed, source);
            let gone = RowOpView::DeleteBinding { collection, link_id: link, source };
            let bound = before.sources[source].handle;
            let incoming = after.sources[source].handle;
            let kept = after.sources.dom().contains(source);
            &&& !kept ==> out == Ok::<Seq<RowOpView>, ErrorView>(seq![gone])
            &&& kept && incoming == bound ==> out == Ok::<Seq<RowOpView>, ErrorView>(Seq::empty())
            &&& kept && incoming != bound && licensed.contains(bound) ==> out == Ok::<
                Seq<RowOpView>,
                ErrorView,
            >(seq![gone])
            &&& kept && incoming != bound && !licensed.contains(bound) ==> out == Err::<
                Seq<RowOpView>,
                ErrorView,
            >(ErrorView::Rebind { collection, link_id: link, source, bound, incoming })
        }),
{
}

/// A binding the item did not have, or that moved, is inserted; one that
/// changed otherwise is updated; one that did not change moves no row.
pub proof fn lemma_a_changed_binding_is_written(
    collection: Text,
    link: Text,
    before: HubItemView,
    after: HubItemView,
    licensed: Set<Text>,
    source: Text,
)
    requires
        after.sources.dom().contains(source),
    ensures
        ({
            let rows = bound_rows(collection, link, before, after, licensed, source);
            let row = row_of_binding(link, source, after.sources[source]);
            let held = before.sources.dom().contains(source);
            let same = before.sources[source] == after.sources[source];
            let moved = before.sources[source].handle != after.sources[source].handle;
            &&& !held ==> rows == seq![RowOpView::InsertBinding { collection, row }]
            &&& held && same ==> rows.len() == 0
            &&& held && moved && licensed.contains(before.sources[source].handle) ==> rows == seq![
                RowOpView::InsertBinding { collection, row },
            ]
            &&& held && !same && !moved ==> rows == seq![
                RowOpView::UpdateBinding { collection, row },
            ]
        }),
{
}

/// Whether a row of a list retains an item.
pub open spec fn retains(rows: Seq<RowOpView>, link: Text) -> bool {
    exists|i: int|
        0 <= i < rows.len() && (#[trigger] rows[i] matches RowOpView::RetainItem { link_id, .. }
            && link_id == link)
}

proof fn lemma_no_binding_retains(
    collection: Text,
    link: Text,
    before: HubItemView,
    after: HubItemView,
    licensed: Set<Text>,
    sources: Seq<Text>,
)
    ensures
        !retains(bindings_rows(collection, link, before, after, licensed, sources), link),
    decreases sources.len(),
{
    if sources.len() > 0 {
        let rest = bindings_rows(collection, link, before, after, licensed, sources.drop_last());
        let more = bound_rows(collection, link, before, after, licensed, sources.last());
        lemma_no_binding_retains(collection, link, before, after, licensed, sources.drop_last());
        lemma_retains_joins(rest, more, link);
    }
}

proof fn lemma_retains_joins(a: Seq<RowOpView>, b: Seq<RowOpView>, link: Text)
    ensures
        retains(a + b, link) == (retains(a, link) || retains(b, link)),
{
    let all = a + b;
    if retains(a, link) {
        let i = choose|i: int|
            0 <= i < a.len() && (#[trigger] a[i] matches RowOpView::RetainItem { link_id, .. }
                && link_id == link);
        assert(all[i] == a[i]);
    }
    if retains(b, link) {
        let i = choose|i: int|
            0 <= i < b.len() && (#[trigger] b[i] matches RowOpView::RetainItem { link_id, .. }
                && link_id == link);
        assert(all[a.len() + i] == b[i]);
    }
    if retains(all, link) {
        let i = choose|i: int|
            0 <= i < all.len() && (#[trigger] all[i] matches RowOpView::RetainItem { link_id, .. }
                && link_id == link);
        if i < a.len() {
            assert(all[i] == a[i]);
        } else {
            assert(all[i] == b[i - a.len()]);
        }
    }
}

proof fn lemma_no_address_retains(
    collection: Text,
    link: Text,
    list: Seq<(PimdirAddressRole, AddressView)>,
)
    ensures
        !retains(address_rows(collection, link, list), link),
{
    let rows = address_rows(collection, link, list);
    assert forall|i: int| 0 <= i < rows.len() implies #[trigger] rows[i] is InsertAddress by {
        if list.len() > 0 {
            lemma_every_person_has_a_row(collection, link, list, 0);
            lemma_every_person_has_a_row(collection, link, list, i);
        }
    }
}

proof fn lemma_no_summary_retains(
    collection: Text,
    link: Text,
    before: Option<SummaryView>,
    after: Option<SummaryView>,
)
    ensures
        !retains(summary_rows(collection, link, before, after), link),
{
    if before != after {
        let old = old_summary_rows(collection, link, before, after);
        let replace = seq![RowOpView::ReplaceAddresses { collection, link_id: link }];
        assert(!retains(old, link));
        assert(!retains(replace, link));
        lemma_retains_joins(old, replace, link);
        match after {
            Some(summary) => {
                let upsert = seq![
                    RowOpView::UpsertSummary {
                        collection,
                        link_id: link,
                        table: table_of(summary),
                        columns: columns_of(summary),
                    },
                ];
                let people = address_rows(collection, link, summary.addresses());
                lemma_no_address_retains(collection, link, summary.addresses());
                assert(!retains(upsert, link));
                lemma_retains_joins(upsert, people, link);
                lemma_retains_joins(old + replace, upsert + people, link);
            },
            None => {
                let none = Seq::<RowOpView>::empty();
                assert(!retains(none, link));
                lemma_retains_joins(old + replace, none, link);
            },
        }
    }
}

/// An item is retained exactly where its last binding goes.
pub proof fn lemma_an_item_is_retained_with_its_last_binding(
    collection: Text,
    source: Text,
    link: Text,
    before: HubItemView,
    after: HubItemView,
    licensed: Set<Text>,
)
    ensures
        retains(item_rows(collection, source, link, Some(before), after, licensed), link) <==> (
        after.sources.dom().is_empty() && !before.sources.dom().is_empty()),
{
    let moved = !same_columns(before, after);
    let a = if moved {
        seq![RowOpView::UpdateItem { collection, row: row_of_item(link, after) }]
    } else {
        Seq::empty()
    };
    let b = summary_rows(collection, link, before.summary, after.summary);
    let c = if before.summary != after.summary && !moved {
        seq![RowOpView::StampItem { collection, link_id: link }, RowOpView::BumpNextChange]
    } else {
        Seq::empty()
    };
    let d = bindings_rows(
        collection,
        link,
        before,
        after,
        licensed,
        in_order(after.sources.dom()),
    );
    let gone = unbound(after) && !unbound(before);
    let e = if gone {
        retention_rows(collection, link, source)
    } else {
        Seq::empty()
    };
    assert(!retains(a, link));
    lemma_no_summary_retains(collection, link, before.summary, after.summary);
    assert(!retains(c, link));
    lemma_no_binding_retains(
        collection,
        link,
        before,
        after,
        licensed,
        in_order(after.sources.dom()),
    );
    lemma_retains_joins(a, b, link);
    lemma_retains_joins(a + b, c, link);
    lemma_retains_joins(a + b + c, d, link);
    lemma_retains_joins(a + b + c + d, e, link);
    if gone {
        assert(e[0] matches RowOpView::RetainItem { link_id, .. } && link_id == link);
        assert(retains(e, link));
    } else {
        assert(!retains(e, link));
    }
    assert(unbound(after) == after.sources.dom().is_empty()) by {
        if after.sources.dom().is_empty() {
            assert(after.sources.dom() =~= Set::empty());
        }
    }
    assert(unbound(before) == before.sources.dom().is_empty()) by {
        if before.sources.dom().is_empty() {
            assert(before.sources.dom() =~= Set::empty());
        }
    }
}

/// An item whose columns moved is updated; one whose summary alone did is
/// stamped, so that either way its change is noticed; and one that did not
/// change moves no row.
pub proof fn lemma_a_changed_item_is_noticed(
    collection: Text,
    source: Text,
    link: Text,
    before: HubItemView,
    after: HubItemView,
    licensed: Set<Text>,
)
    ensures
        ({
            let rows = item_rows(collection, source, link, Some(before), after, licensed);
            let moved = before.flags != after.flags || before.object != after.object
                || before.sort_key != after.sort_key || before.level != after.level
                || before.deleted != after.deleted || before.conflicted != after.conflicted
                || before.conflict_object != after.conflict_object;
            &&& moved ==> rows.contains(
                RowOpView::UpdateItem { collection, row: row_of_item(link, after) },
            )
            &&& !moved && before.summary != after.summary ==> rows.contains(
                RowOpView::StampItem { collection, link_id: link },
            ) && rows.contains(RowOpView::BumpNextChange)
        }),
{
    let rows = item_rows(collection, source, link, Some(before), after, licensed);
    let moved = !same_columns(before, after);
    if moved {
        assert(rows[0] == (RowOpView::UpdateItem { collection, row: row_of_item(link, after) }));
    } else if before.summary != after.summary {
        let b = summary_rows(collection, link, before.summary, after.summary);
        let n = b.len() as int;
        assert(rows[n] == (RowOpView::StampItem { collection, link_id: link }));
        assert(rows[n + 1] == RowOpView::BumpNextChange);
    }
}

/// A body an item, its conflict or the base or conflict of one of its
/// bindings points at is one of its references; the body a binding shares
/// is none.
pub proof fn lemma_what_an_item_points_at(item: HubItemView, hash: Text)
    requires
        ascending(in_order(item.sources.dom())),
        in_order(item.sources.dom()).to_set() == item.sources.dom(),
    ensures
        item_refs(item).contains(hash) <==> (item.object == Some(hash) || item.conflict_object
            == Some(hash) || exists|source: Text|
            #[trigger] item.sources.dom().contains(source) && points_at(
                item.sources[source],
                hash,
            )),
{
    let sources = in_order(item.sources.dom());
    lemma_what_bindings_point_at(item.sources, sources, hash);
    let own = at_most_one(item.object) + at_most_one(item.conflict_object);
    let refs = binding_refs(item.sources, sources);
    lemma_contains_joins(at_most_one(item.object), at_most_one(item.conflict_object), hash);
    lemma_contains_joins(own, refs, hash);
    lemma_contains_one(item.object, hash);
    lemma_contains_one(item.conflict_object, hash);
    if exists|source: Text|
        #[trigger] item.sources.dom().contains(source) && points_at(item.sources[source], hash) {
        let source = choose|source: Text|
            #[trigger] item.sources.dom().contains(source) && points_at(item.sources[source], hash);
        assert(sources.to_set().contains(source));
        assert(sources.contains(source));
        let i = choose|i: int| 0 <= i < sources.len() && sources[i] == source;
        assert(points_at(item.sources[sources[i]], hash));
    }
    if exists|i: int|
        0 <= i < sources.len() && points_at(item.sources[#[trigger] sources[i]], hash) {
        let i = choose|i: int|
            0 <= i < sources.len() && points_at(item.sources[#[trigger] sources[i]], hash);
        assert(sources.to_set().contains(sources[i]));
        assert(item.sources.dom().contains(sources[i]));
    }
}

/// Whether a binding points at a body: its base does, or its conflict.
pub open spec fn points_at(binding: BindingView, hash: Text) -> bool {
    ||| binding.base matches Some(base) && base.object == Some(hash)
    ||| binding.conflicted && binding.conflict_object == Some(hash)
}

proof fn lemma_contains_joins(a: Seq<Text>, b: Seq<Text>, text: Text)
    ensures
        (a + b).contains(text) == (a.contains(text) || b.contains(text)),
{
    let all = a + b;
    if a.contains(text) {
        let i = choose|i: int| 0 <= i < a.len() && a[i] == text;
        assert(all[i] == text);
    }
    if b.contains(text) {
        let i = choose|i: int| 0 <= i < b.len() && b[i] == text;
        assert(all[a.len() + i] == text);
    }
    if all.contains(text) {
        let i = choose|i: int| 0 <= i < all.len() && all[i] == text;
        if i < a.len() {
            assert(a[i] == text);
        } else {
            assert(b[i - a.len()] == text);
        }
    }
}

proof fn lemma_contains_one(text: Option<Text>, hash: Text)
    ensures
        at_most_one(text).contains(hash) == (text == Some(hash)),
{
    if text == Some(hash) {
        assert(at_most_one(text)[0] == hash);
    }
}

proof fn lemma_what_bindings_point_at(
    bindings: Map<Text, BindingView>,
    sources: Seq<Text>,
    hash: Text,
)
    ensures
        binding_refs(bindings, sources).contains(hash) <==> exists|i: int|
            0 <= i < sources.len() && points_at(bindings[#[trigger] sources[i]], hash),
    decreases sources.len(),
{
    if sources.len() > 0 {
        let rest = sources.drop_last();
        let last = sources.len() - 1;
        lemma_what_bindings_point_at(bindings, rest, hash);
        let binding = bindings[sources.last()];
        let base = match binding.base {
            Some(base) => base.object,
            None => None,
        };
        lemma_contains_joins(binding_refs(bindings, rest), at_most_one(base), hash);
        lemma_contains_joins(
            binding_refs(bindings, rest) + at_most_one(base),
            at_most_one(stuck_on(binding)),
            hash,
        );
        lemma_contains_one(base, hash);
        lemma_contains_one(stuck_on(binding), hash);
        assert(sources.last() == sources[last]);
        if exists|i: int| 0 <= i < rest.len() && points_at(bindings[#[trigger] rest[i]], hash) {
            let i = choose|i: int|
                0 <= i < rest.len() && points_at(bindings[#[trigger] rest[i]], hash);
            assert(rest[i] == sources[i]);
        }
        if exists|i: int| 0 <= i < sources.len() && points_at(bindings[#[trigger] sources[i]], hash) {
            let i = choose|i: int|
                0 <= i < sources.len() && points_at(bindings[#[trigger] sources[i]], hash);
            if i < last {
                assert(rest[i] == sources[i]);
            }
        }
    }
}

/// An item whose key a retained row holds is brought back with the
/// incoming row in place of a new one, and lets go of each body the
/// retained row pinned; any other comes in under its public id.
pub proof fn lemma_a_retained_row_is_revived(
    collection: Text,
    row: ItemRowView,
    bindings: Seq<BindingRowView>,
    object: Option<Text>,
    conflict: Option<Text>,
    seq: i64,
)
    ensures
        ({
            let rows = admitted(collection, row, bindings, Some((object, conflict)), seq);
            &&& rows[0] == (RowOpView::ReviveItem { collection, link_id: row.link_id })
            &&& rows[1] == (RowOpView::UpdateItem { collection, row })
            &&& object matches Some(hash) ==> rows[2] == (RowOpView::AdjustRefcount {
                hash,
                delta: -1i64,
            })
            &&& conflict matches Some(hash) ==> rows.contains(
                RowOpView::AdjustRefcount { hash, delta: -1i64 },
            )
            &&& !rows.contains(RowOpView::InsertItem { collection, seq, row })
        }),
        admitted(collection, row, bindings, None, seq)[0] == (RowOpView::InsertItem {
            collection,
            seq,
            row,
        }),
        admitted(collection, row, bindings, None, seq).len() == 1 + bindings.len(),
        forall|i: int|
            0 <= i < bindings.len() ==> #[trigger] admitted(collection, row, bindings, None, seq)[1
                + i] == (RowOpView::InsertBinding { collection, row: bindings[i] }),
{
    let rows = admitted(collection, row, bindings, Some((object, conflict)), seq);
    let pins = at_most_one(object) + at_most_one(conflict);
    if let Some(hash) = object {
        assert(pins[0] == hash);
        assert(rows[2] == unpinned(pins)[0]);
    }
    if let Some(hash) = conflict {
        let n = at_most_one(object).len() as int;
        assert(pins[n] == hash);
        assert(rows[2 + n] == unpinned(pins)[n]);
    }
    assert forall|i: int| 0 <= i < rows.len() implies !(#[trigger] rows[i] is InsertItem) by {
        let m = 2 + pins.len() as int;
        if i >= m {
            assert(rows[i] == inserted(collection, bindings)[i - m]);
        } else if i >= 2 {
            assert(rows[i] == unpinned(pins)[i - 2]);
        }
    }
}

/// The keys the library derives itself are told from those content
/// states: a minted one, a digest and a message's own parts are, and a key
/// that starts otherwise is not.
pub proof fn lemma_a_derived_key_is_told(id: Text, handle: Text, body: Seq<u8>, link: Text)
    ensures
        is_derived(crate::placement::minted_key(id, handle)),
        is_derived(crate::summary::hash_key_text(body)),
        is_derived("alt:"@ + id),
        link.len() > 0 && link[0] != 'a' && link[0] != 'h' && link[0] != 'd' ==> !is_derived(link),
{
    reveal_strlit("alt:");
    reveal_strlit("hash:");
    reveal_strlit("dup:");
    let minted = crate::placement::minted_key(id, handle);
    assert("dup:"@ =~= minted.subrange(0, 4));
    let digest = crate::summary::hash_key_text(body);
    assert("hash:"@ =~= digest.subrange(0, 5));
    let alt = "alt:"@ + id;
    assert("alt:"@ =~= alt.subrange(0, 4));
    assert("alt:"@[0] == 'a' && "hash:"@[0] == 'h' && "dup:"@[0] == 'd');
    if is_derived(link) {
        assert(link[0] == "alt:"@[0] || link[0] == "hash:"@[0] || link[0] == "dup:"@[0]);
    }
}

/// The row of a calendar summary goes where the summary changed to one of
/// another table, or to none; a mail or contact row never goes.
pub proof fn lemma_the_row_of_the_old_kind_goes(
    collection: Text,
    link: Text,
    gone: SummaryView,
    kept: SummaryView,
)
    ensures
        ({
            let calendar = gone is Event || gone is Task || gone is Journal;
            let row = RowOpView::DeleteSummary { collection, link_id: link, table: table_of(gone) };
            &&& calendar && table_of(kept) != table_of(gone) ==> old_summary_rows(
                collection,
                link,
                Some(gone),
                Some(kept),
            ) == seq![row]
            &&& calendar ==> old_summary_rows(collection, link, Some(gone), None) == seq![row]
            &&& calendar && table_of(kept) == table_of(gone) ==> old_summary_rows(
                collection,
                link,
                Some(gone),
                Some(kept),
            ).len() == 0
            &&& !calendar ==> old_summary_rows(collection, link, Some(gone), Some(kept)).len() == 0
                && old_summary_rows(collection, link, Some(gone), None).len() == 0
            &&& old_summary_rows(collection, link, None, Some(kept)).len() == 0
        }),
{
}

/// What each item of a hub writes is among what the hub writes.
pub proof fn lemma_every_item_writes_its_rows(
    collection: Text,
    source: Text,
    before: Map<Text, HubItemView>,
    after: Map<Text, HubItemView>,
    licensed: Set<Text>,
    links: Seq<Text>,
    i: int,
    row: RowOpView,
)
    requires
        0 <= i < links.len(),
        before.dom().contains(links[i]) ==> item_rows(
            collection,
            source,
            links[i],
            Some(before[links[i]]),
            after[links[i]],
            licensed,
        ).contains(row),
        !before.dom().contains(links[i]) ==> item_rows(
            collection,
            source,
            links[i],
            None,
            after[links[i]],
            licensed,
        ).contains(row),
    ensures
        all_item_rows(collection, source, before, after, licensed, links).contains(row),
    decreases links.len(),
{
    let rest = all_item_rows(collection, source, before, after, licensed, links.drop_last());
    let all = all_item_rows(collection, source, before, after, licensed, links);
    if i < links.len() - 1 {
        assert(links.drop_last()[i] == links[i]);
        lemma_every_item_writes_its_rows(
            collection,
            source,
            before,
            after,
            licensed,
            links.drop_last(),
            i,
            row,
        );
        let k = choose|k: int| 0 <= k < rest.len() && rest[k] == row;
        assert(all[k] == row);
    } else {
        let own = item_rows(
            collection,
            source,
            links[i],
            item_at(before, links[i]),
            after[links[i]],
            licensed,
        );
        let k = choose|k: int| 0 <= k < own.len() && own[k] == row;
        assert(all[rest.len() + k] == row);
    }
}

/// A binding moved without a licence refuses the whole write, whichever
/// item and source it is of.
pub proof fn lemma_one_refused_binding_refuses_the_write(
    collection: Text,
    before: Map<Text, HubItemView>,
    after: Map<Text, HubItemView>,
    licensed: Set<Text>,
    links: Seq<Text>,
    i: int,
    sources: Seq<Text>,
    k: int,
)
    requires
        0 <= i < links.len(),
        before.dom().contains(links[i]),
        sources == in_order(before[links[i]].sources.dom()),
        0 <= k < sources.len(),
        after[links[i]].sources.dom().contains(sources[k]),
        after[links[i]].sources[sources[k]].handle != before[links[i]].sources[sources[k]].handle,
        !licensed.contains(before[links[i]].sources[sources[k]].handle),
    ensures
        all_releases(collection, before, after, licensed, links) is Err,
    decreases links.len(),
{
    if i < links.len() - 1 {
        assert(links.drop_last()[i] == links[i]);
        lemma_one_refused_binding_refuses_the_write(
            collection,
            before,
            after,
            licensed,
            links.drop_last(),
            i,
            sources,
            k,
        );
    } else {
        lemma_one_refused_source(
            collection,
            links[i],
            before[links[i]],
            after[links[i]],
            licensed,
            sources,
            k,
        );
    }
}

proof fn lemma_one_refused_source(
    collection: Text,
    link: Text,
    before: HubItemView,
    after: HubItemView,
    licensed: Set<Text>,
    sources: Seq<Text>,
    k: int,
)
    requires
        0 <= k < sources.len(),
        after.sources.dom().contains(sources[k]),
        after.sources[sources[k]].handle != before.sources[sources[k]].handle,
        !licensed.contains(before.sources[sources[k]].handle),
    ensures
        releases(collection, link, before, after, licensed, sources) is Err,
    decreases sources.len(),
{
    if k < sources.len() - 1 {
        assert(sources.drop_last()[k] == sources[k]);
        lemma_one_refused_source(
            collection,
            link,
            before,
            after,
            licensed,
            sources.drop_last(),
            k,
        );
    }
}

/// An item whose last binding goes is retained in the name of the source
/// that let go, loses the rows of its bindings, and is purged at once where
/// another collection holds it.
pub proof fn lemma_a_retained_item_keeps_no_binding(
    collection: Text,
    source: Text,
    link: Text,
    before: HubItemView,
    after: HubItemView,
    licensed: Set<Text>,
    holder: Text,
)
    requires
        before.sources.dom().contains(holder),
        after.sources.dom() == Set::<Text>::empty(),
    ensures
        ({
            let rows = item_rows(collection, source, link, Some(before), after, licensed);
            let n = rows.len() as int;
            &&& n >= 3
            &&& rows[n - 3] == (RowOpView::RetainItem { collection, link_id: link, source })
            &&& rows[n - 2] == (RowOpView::DeleteItemBindings { collection, link_id: link })
            &&& rows[n - 1] == (RowOpView::PurgeIfHeldElsewhere { collection, link_id: link })
        }),
{
    assert(!unbound(before)) by {
        assert(!Set::<Text>::empty().contains(holder));
    }
    assert(unbound(after));
    let rows = item_rows(collection, source, link, Some(before), after, licensed);
    let last = retention_rows(collection, link, source);
    let n = rows.len() as int;
    assert(rows[n - 3] == last[0] && rows[n - 2] == last[1] && rows[n - 1] == last[2]);
}

/// An item that comes in brings one row for each of its bindings.
pub proof fn lemma_a_new_item_brings_its_bindings(
    link: Text,
    bindings: Map<Text, BindingView>,
    sources: Seq<Text>,
    i: int,
)
    requires
        0 <= i < sources.len(),
    ensures
        binding_rows_of(link, bindings, sources).len() == sources.len(),
        binding_rows_of(link, bindings, sources)[i].source == sources[i],
        binding_rows_of(link, bindings, sources)[i].link_id == link,
        binding_rows_of(link, bindings, sources)[i].handle == bindings[sources[i]].handle,
    decreases sources.len(),
{
    let rest = sources.drop_last();
    if rest.len() > 0 {
        if i < rest.len() {
            lemma_a_new_item_brings_its_bindings(link, bindings, rest, i);
        } else {
            lemma_a_new_item_brings_its_bindings(link, bindings, rest, 0);
        }
    } else {
        assert(binding_rows_of(link, bindings, rest).len() == 0);
    }
}

/// What any item of a hub points at is counted for the hub.
pub proof fn lemma_every_item_is_counted(
    items: Map<Text, HubItemView>,
    links: Seq<Text>,
    i: int,
    hash: Text,
)
    requires
        0 <= i < links.len(),
        item_refs(items[links[i]]).contains(hash),
    ensures
        refs_of(items, links).contains(hash),
    decreases links.len(),
{
    let rest = links.drop_last();
    lemma_contains_joins(refs_of(items, rest), item_refs(items[links.last()]), hash);
    if i < rest.len() {
        assert(rest[i] == links[i]);
        lemma_every_item_is_counted(items, rest, i, hash);
    }
}

} // verus!
