//! # The reader
//!
//! The read role: what a page of items holds, and how the queue's pending
//! actions fold over the committed rows, so a producer sees what it staged
//! before the owner applies it.
//!
//! The rows come in as arguments, in the order the statements yield them.

use crate::client::load::{role_of, AddressRowView, PimdirAddressRow, PimdirSummaryRow, SummaryRowView};
use crate::client::producer::{PendingActionView, PimdirPendingAction};
use crate::client::rows::{
    attach_address, tables_for, tables_of, to_flags, to_hash, to_level, with_person,
    PimdirSummaryTable,
};
use crate::codec::{flags_from_json, level_from_int, ActionView, PimdirAction};
use crate::hub::PimdirSourceId;
use crate::id_map::{ids_in_order, IdMap};
use crate::list::push_to;
use crate::object::PimdirHash;
use crate::placement::{PimdirFlags, PimdirHandle, PimdirLevel, PimdirLinkId};
use crate::summary::{
    as_borrowed, lemma_a_role_is_its_spelling, AddressView, PimdirAddress, PimdirAddressRole,
    PimdirSummary, SummaryView,
};
use crate::text::{
    lemma_text_irreflexive, lemma_text_total, lemma_text_transitive, text_before, text_lt,
    text_same, Text,
};
use vstd::prelude::*;
use vstd::string::*;

verus! {

/// A collection as a read reports it, kind-agnostic.
#[derive(Debug, PartialEq, Eq)]
pub struct PimdirCollection {
    /// The stable collection id.
    pub id: String,
    /// The account it is grouped under, `None` in a single-account store.
    pub account: Option<String>,
    /// The declared media type, or the empty string when never declared.
    pub kind: String,
    /// The display name.
    pub name: String,
    /// The parent collection id, for a hierarchy.
    pub parent: Option<String>,
    /// A presentation colour hint.
    pub color: Option<String>,
    /// A free-text description.
    pub description: Option<String>,
    /// An explicit sort key; `None` sorts after the ordered ones.
    pub sort_order: Option<i64>,
    /// The handle-space epoch, starting at 1.
    pub generation: i64,
}

/// What a [`PimdirCollection`] says, by value.
#[verifier::ext_equal]
pub struct CollectionView {
    pub id: Text,
    pub account: Option<Text>,
    pub kind: Text,
    pub name: Text,
    pub parent: Option<Text>,
    pub color: Option<Text>,
    pub description: Option<Text>,
    pub sort_order: Option<i64>,
    pub generation: i64,
}

impl View for PimdirCollection {
    type V = CollectionView;

    open spec fn view(&self) -> CollectionView {
        CollectionView {
            id: self.id@,
            account: self.account.deep_view(),
            kind: self.kind@,
            name: self.name@,
            parent: self.parent.deep_view(),
            color: self.color.deep_view(),
            description: self.description.deep_view(),
            sort_order: self.sort_order,
            generation: self.generation,
        }
    }
}

impl DeepView for PimdirCollection {
    type V = CollectionView;

    open spec fn deep_view(&self) -> CollectionView {
        self@
    }
}

impl Clone for PimdirCollection {
    fn clone(&self) -> (copy: Self)
        ensures
            copy@ == self@,
    {
        PimdirCollection {
            id: self.id.clone(),
            account: self.account.clone(),
            kind: self.kind.clone(),
            name: self.name.clone(),
            parent: self.parent.clone(),
            color: self.color.clone(),
            description: self.description.clone(),
            sort_order: self.sort_order,
            generation: self.generation,
        }
    }
}

/// What retention holds about an item, on the trash view's rows.
#[derive(Debug, PartialEq, Eq)]
pub struct PimdirRetention {
    /// The RFC 3339 instant the last binding vanished.
    pub at: String,
    /// The source whose removal retired the item; diagnostic.
    pub by: Option<String>,
    /// The body's size in bytes, `None` alongside an absent body.
    pub size: Option<u64>,
}

/// What a [`PimdirRetention`] says, by value.
#[verifier::ext_equal]
pub struct RetentionView {
    pub at: Text,
    pub by: Option<Text>,
    pub size: Option<u64>,
}

impl View for PimdirRetention {
    type V = RetentionView;

    open spec fn view(&self) -> RetentionView {
        RetentionView {
            at: self.at@,
            by: self.by.deep_view(),
            size: self.size,
        }
    }
}

impl DeepView for PimdirRetention {
    type V = RetentionView;

    open spec fn deep_view(&self) -> RetentionView {
        self@
    }
}

impl Clone for PimdirRetention {
    fn clone(&self) -> (copy: Self)
        ensures
            copy@ == self@,
    {
        PimdirRetention {
            at: self.at.clone(),
            by: self.by.clone(),
            size: self.size,
        }
    }
}

/// One live item as a read reports it, its summary joined when the read
/// carries one.
#[derive(Debug, PartialEq, Eq)]
pub struct PimdirItem {
    /// The public id, the same in every collection the item is in.
    pub seq: i64,
    /// The item's key, internal: a consumer reads and edits by `seq`.
    pub link_id: PimdirLinkId,
    /// The flag set.
    pub flags: PimdirFlags,
    /// The kind's ordering key; empty means unknown.
    pub sort_key: String,
    /// The body's hash; `None` until hydrated.
    pub object: Option<PimdirHash>,
    /// The detail tier reached.
    pub level: PimdirLevel,
    /// The summary and addresses on the reads that join them.
    pub summary: Option<PimdirSummary>,
    /// What retention holds about the row, `None` while it is live.
    pub retention: Option<PimdirRetention>,
}

/// What a [`PimdirItem`] says, by value.
#[verifier::ext_equal]
pub struct ItemView {
    pub seq: i64,
    pub link_id: Text,
    pub flags: Option<Set<Text>>,
    pub sort_key: Text,
    pub object: Option<Text>,
    pub level: PimdirLevel,
    pub summary: Option<SummaryView>,
    pub retention: Option<RetentionView>,
}

impl View for PimdirItem {
    type V = ItemView;

    open spec fn view(&self) -> ItemView {
        ItemView {
            seq: self.seq,
            link_id: self.link_id@,
            flags: self.flags@,
            sort_key: self.sort_key@,
            object: self.object.deep_view(),
            level: self.level,
            summary: self.summary.deep_view(),
            retention: self.retention.deep_view(),
        }
    }
}

impl DeepView for PimdirItem {
    type V = ItemView;

    open spec fn deep_view(&self) -> ItemView {
        self@
    }
}

impl Clone for PimdirItem {
    fn clone(&self) -> (copy: Self)
        ensures
            copy@ == self@,
    {
        PimdirItem {
            seq: self.seq,
            link_id: self.link_id.clone(),
            flags: self.flags.clone(),
            sort_key: self.sort_key.clone(),
            object: self.object.clone(),
            level: self.level,
            summary: self.summary.clone(),
            retention: self.retention.clone(),
        }
    }
}

/// Where one identity or one body sits: one live placement with the
/// collection and account it occurs in. A fact, not a verdict.
#[derive(Debug, PartialEq, Eq)]
pub struct PimdirItemLocation {
    /// The collection the placement sits in.
    pub collection: String,
    /// The account that collection is grouped under.
    pub account: Option<String>,
    /// The item's public id.
    pub seq: i64,
    /// The item's key.
    pub link_id: PimdirLinkId,
    /// The body the placement points at.
    pub object: Option<PimdirHash>,
    /// The flag set.
    pub flags: PimdirFlags,
    /// The detail tier reached.
    pub level: PimdirLevel,
}

/// What a [`PimdirItemLocation`] says, by value.
#[verifier::ext_equal]
pub struct ItemLocationView {
    pub collection: Text,
    pub account: Option<Text>,
    pub seq: i64,
    pub link_id: Text,
    pub object: Option<Text>,
    pub flags: Option<Set<Text>>,
    pub level: PimdirLevel,
}

impl View for PimdirItemLocation {
    type V = ItemLocationView;

    open spec fn view(&self) -> ItemLocationView {
        ItemLocationView {
            collection: self.collection@,
            account: self.account.deep_view(),
            seq: self.seq,
            link_id: self.link_id@,
            object: self.object.deep_view(),
            flags: self.flags@,
            level: self.level,
        }
    }
}

impl DeepView for PimdirItemLocation {
    type V = ItemLocationView;

    open spec fn deep_view(&self) -> ItemLocationView {
        self@
    }
}

impl Clone for PimdirItemLocation {
    fn clone(&self) -> (copy: Self)
        ensures
            copy@ == self@,
    {
        PimdirItemLocation {
            collection: self.collection.clone(),
            account: self.account.clone(),
            seq: self.seq,
            link_id: self.link_id.clone(),
            object: self.object.clone(),
            flags: self.flags.clone(),
            level: self.level,
        }
    }
}

/// One live placement naming an address: the person axis.
#[derive(Debug, PartialEq, Eq)]
pub struct PimdirAddressPlacement {
    /// The canonical address matched.
    pub address: String,
    /// The role it plays for the item.
    pub role: PimdirAddressRole,
    /// The collection the item sits in.
    pub collection: String,
    /// The account that collection is grouped under.
    pub account: Option<String>,
    /// The collection's kind.
    pub kind: String,
    /// The item's public id.
    pub seq: i64,
    /// The item's sort key.
    pub sort_key: String,
}

/// What a [`PimdirAddressPlacement`] says, by value.
#[verifier::ext_equal]
pub struct AddressPlacementView {
    pub address: Text,
    pub role: PimdirAddressRole,
    pub collection: Text,
    pub account: Option<Text>,
    pub kind: Text,
    pub seq: i64,
    pub sort_key: Text,
}

impl View for PimdirAddressPlacement {
    type V = AddressPlacementView;

    open spec fn view(&self) -> AddressPlacementView {
        AddressPlacementView {
            address: self.address@,
            role: self.role,
            collection: self.collection@,
            account: self.account.deep_view(),
            kind: self.kind@,
            seq: self.seq,
            sort_key: self.sort_key@,
        }
    }
}

impl DeepView for PimdirAddressPlacement {
    type V = AddressPlacementView;

    open spec fn deep_view(&self) -> AddressPlacementView {
        self@
    }
}

impl Clone for PimdirAddressPlacement {
    fn clone(&self) -> (copy: Self)
        ensures
            copy@ == self@,
    {
        PimdirAddressPlacement {
            address: self.address.clone(),
            role: self.role,
            collection: self.collection.clone(),
            account: self.account.clone(),
            kind: self.kind.clone(),
            seq: self.seq,
            sort_key: self.sort_key.clone(),
        }
    }
}

/// One binding waiting for a decision, with the three bodies a resolver
/// merges: the base, the item's own, and the remote's.
#[derive(Debug, PartialEq, Eq)]
pub struct PimdirConflict {
    /// The collection the binding sits in.
    pub collection: String,
    /// The item's key.
    pub link_id: PimdirLinkId,
    /// The source that diverged from its own remote.
    pub source: PimdirSourceId,
    /// The item's handle on that source.
    pub handle: PimdirHandle,
    /// The remote revision observed when the divergence was recorded.
    pub conflict_revision: Option<String>,
    /// The body the last sync agreed on.
    pub base_object: Option<PimdirHash>,
    /// The local side, the item's own body.
    pub object: Option<PimdirHash>,
    /// The remote side, `None` until the upgrade supplies it.
    pub conflict_object: Option<PimdirHash>,
}

/// What a [`PimdirConflict`] says, by value.
#[verifier::ext_equal]
pub struct ConflictView {
    pub collection: Text,
    pub link_id: Text,
    pub source: Text,
    pub handle: Text,
    pub conflict_revision: Option<Text>,
    pub base_object: Option<Text>,
    pub object: Option<Text>,
    pub conflict_object: Option<Text>,
}

impl View for PimdirConflict {
    type V = ConflictView;

    open spec fn view(&self) -> ConflictView {
        ConflictView {
            collection: self.collection@,
            link_id: self.link_id@,
            source: self.source@,
            handle: self.handle@,
            conflict_revision: self.conflict_revision.deep_view(),
            base_object: self.base_object.deep_view(),
            object: self.object.deep_view(),
            conflict_object: self.conflict_object.deep_view(),
        }
    }
}

impl DeepView for PimdirConflict {
    type V = ConflictView;

    open spec fn deep_view(&self) -> ConflictView {
        self@
    }
}

impl Clone for PimdirConflict {
    fn clone(&self) -> (copy: Self)
        ensures
            copy@ == self@,
    {
        PimdirConflict {
            collection: self.collection.clone(),
            link_id: self.link_id.clone(),
            source: self.source.clone(),
            handle: self.handle.clone(),
            conflict_revision: self.conflict_revision.clone(),
            base_object: self.base_object.clone(),
            object: self.object.clone(),
            conflict_object: self.conflict_object.clone(),
        }
    }
}

/// One item the change feed reports.
#[derive(Debug, PartialEq, Eq)]
pub struct PimdirItemChange {
    /// The collection the item sits in.
    pub collection: String,
    /// The item's key.
    pub link_id: PimdirLinkId,
    /// The item's public id.
    pub seq: i64,
    /// The stamp the row took.
    pub changed: i64,
    /// Whether the item is deleted or retained.
    pub deleted: bool,
    /// The retention instant, when retained.
    pub retained_at: Option<String>,
}

/// What a [`PimdirItemChange`] says, by value.
#[verifier::ext_equal]
pub struct ItemChangeView {
    pub collection: Text,
    pub link_id: Text,
    pub seq: i64,
    pub changed: i64,
    pub deleted: bool,
    pub retained_at: Option<Text>,
}

impl View for PimdirItemChange {
    type V = ItemChangeView;

    open spec fn view(&self) -> ItemChangeView {
        ItemChangeView {
            collection: self.collection@,
            link_id: self.link_id@,
            seq: self.seq,
            changed: self.changed,
            deleted: self.deleted,
            retained_at: self.retained_at.deep_view(),
        }
    }
}

impl DeepView for PimdirItemChange {
    type V = ItemChangeView;

    open spec fn deep_view(&self) -> ItemChangeView {
        self@
    }
}

impl Clone for PimdirItemChange {
    fn clone(&self) -> (copy: Self)
        ensures
            copy@ == self@,
    {
        PimdirItemChange {
            collection: self.collection.clone(),
            link_id: self.link_id.clone(),
            seq: self.seq,
            changed: self.changed,
            deleted: self.deleted,
            retained_at: self.retained_at.clone(),
        }
    }
}

/// One collection the change feed reports.
#[derive(Debug, PartialEq, Eq)]
pub struct PimdirCollectionChange {
    /// The collection id, the new one after a rename.
    pub id: String,
    /// The account it is grouped under.
    pub account: Option<String>,
    /// The declared kind.
    pub kind: String,
    /// The display name.
    pub name: String,
    /// The stamp the row took.
    pub changed: i64,
}

/// What a [`PimdirCollectionChange`] says, by value.
#[verifier::ext_equal]
pub struct CollectionChangeView {
    pub id: Text,
    pub account: Option<Text>,
    pub kind: Text,
    pub name: Text,
    pub changed: i64,
}

impl View for PimdirCollectionChange {
    type V = CollectionChangeView;

    open spec fn view(&self) -> CollectionChangeView {
        CollectionChangeView {
            id: self.id@,
            account: self.account.deep_view(),
            kind: self.kind@,
            name: self.name@,
            changed: self.changed,
        }
    }
}

impl DeepView for PimdirCollectionChange {
    type V = CollectionChangeView;

    open spec fn deep_view(&self) -> CollectionChangeView {
        self@
    }
}

impl Clone for PimdirCollectionChange {
    fn clone(&self) -> (copy: Self)
        ensures
            copy@ == self@,
    {
        PimdirCollectionChange {
            id: self.id.clone(),
            account: self.account.clone(),
            kind: self.kind.clone(),
            name: self.name.clone(),
            changed: self.changed,
        }
    }
}

/// The change feed's cursor: the next stamp and the purge count.
#[derive(Clone, Copy, Debug, Eq, PartialEq)]
pub struct PimdirChangeCursor {
    /// Every stamp below this one is drawn.
    pub next_change: i64,
    /// How many rows left without a stamp.
    pub purges: i64,
}

impl Default for PimdirChangeCursor {
    fn default() -> (cursor: Self)
        ensures
            cursor.next_change == 0,
            cursor.purges == 0,
    {
        PimdirChangeCursor { next_change: 0, purges: 0 }
    }
}

/// The columns every item read leads with.
#[derive(Debug, PartialEq, Eq)]
pub struct PimdirListedRow {
    /// The public id.
    pub seq: i64,
    /// The key.
    pub link_id: String,
    /// The flag set, as JSON.
    pub flags: Option<String>,
    /// The body's hash.
    pub object: Option<String>,
    /// The ordering key.
    pub sort_key: String,
    /// The detail tier.
    pub level: i64,
    /// The columns a retained page carries more.
    pub retained: Option<PimdirRetainedRow>,
}

/// What a [`PimdirListedRow`] says, by value.
#[verifier::ext_equal]
pub struct ListedRowView {
    pub seq: i64,
    pub link_id: Text,
    pub flags: Option<Text>,
    pub object: Option<Text>,
    pub sort_key: Text,
    pub level: i64,
    pub retained: Option<RetainedRowView>,
}

impl View for PimdirListedRow {
    type V = ListedRowView;

    open spec fn view(&self) -> ListedRowView {
        ListedRowView {
            seq: self.seq,
            link_id: self.link_id@,
            flags: self.flags.deep_view(),
            object: self.object.deep_view(),
            sort_key: self.sort_key@,
            level: self.level,
            retained: self.retained.deep_view(),
        }
    }
}

impl DeepView for PimdirListedRow {
    type V = ListedRowView;

    open spec fn deep_view(&self) -> ListedRowView {
        self@
    }
}

impl Clone for PimdirListedRow {
    fn clone(&self) -> (copy: Self)
        ensures
            copy@ == self@,
    {
        PimdirListedRow {
            seq: self.seq,
            link_id: self.link_id.clone(),
            flags: self.flags.clone(),
            object: self.object.clone(),
            sort_key: self.sort_key.clone(),
            level: self.level,
            retained: self.retained.clone(),
        }
    }
}

/// The columns a retained page carries more.
#[derive(Debug, PartialEq, Eq)]
pub struct PimdirRetainedRow {
    /// The retention instant.
    pub at: String,
    /// The source whose removal retired the item.
    pub by: Option<String>,
    /// The body's size.
    pub size: Option<i64>,
}

/// What a [`PimdirRetainedRow`] says, by value.
#[verifier::ext_equal]
pub struct RetainedRowView {
    pub at: Text,
    pub by: Option<Text>,
    pub size: Option<i64>,
}

impl View for PimdirRetainedRow {
    type V = RetainedRowView;

    open spec fn view(&self) -> RetainedRowView {
        RetainedRowView {
            at: self.at@,
            by: self.by.deep_view(),
            size: self.size,
        }
    }
}

impl DeepView for PimdirRetainedRow {
    type V = RetainedRowView;

    open spec fn deep_view(&self) -> RetainedRowView {
        self@
    }
}

impl Clone for PimdirRetainedRow {
    fn clone(&self) -> (copy: Self)
        ensures
            copy@ == self@,
    {
        PimdirRetainedRow {
            at: self.at.clone(),
            by: self.by.clone(),
            size: self.size,
        }
    }
}

/// Where a page starts: past the row with this key and public id.
#[derive(Debug, PartialEq, Eq)]
pub struct PimdirCursor {
    /// The row's key.
    pub key: String,
    /// The row's public id.
    pub seq: i64,
}

/// What a [`PimdirCursor`] says, by value.
#[verifier::ext_equal]
pub struct CursorView {
    pub key: Text,
    pub seq: i64,
}

impl View for PimdirCursor {
    type V = CursorView;

    open spec fn view(&self) -> CursorView {
        CursorView {
            key: self.key@,
            seq: self.seq,
        }
    }
}

impl DeepView for PimdirCursor {
    type V = CursorView;

    open spec fn deep_view(&self) -> CursorView {
        self@
    }
}

impl Clone for PimdirCursor {
    fn clone(&self) -> (copy: Self)
        ensures
            copy@ == self@,
    {
        PimdirCursor {
            key: self.key.clone(),
            seq: self.seq,
        }
    }
}

/// A pending action with the collection it is queued on.
#[derive(Debug, PartialEq, Eq)]
pub struct PimdirQueued {
    /// The collection.
    pub from: String,
    /// The action.
    pub action: PimdirPendingAction,
}

/// What a [`PimdirQueued`] says, by value.
#[verifier::ext_equal]
pub struct QueuedView {
    pub from: Text,
    pub action: PendingActionView,
}

impl View for PimdirQueued {
    type V = QueuedView;

    open spec fn view(&self) -> QueuedView {
        QueuedView {
            from: self.from@,
            action: self.action@,
        }
    }
}

impl DeepView for PimdirQueued {
    type V = QueuedView;

    open spec fn deep_view(&self) -> QueuedView {
        self@
    }
}

impl Clone for PimdirQueued {
    fn clone(&self) -> (copy: Self)
        ensures
            copy@ == self@,
    {
        PimdirQueued {
            from: self.from.clone(),
            action: self.action.clone(),
        }
    }
}

/// A size column, which is never below zero.
pub open spec fn size_of_column(size: Option<i64>) -> Option<u64> {
    match size {
        Some(size) => Some(
            if size < 0 {
                0
            } else {
                size as u64
            },
        ),
        None => None,
    }
}

/// Reads a count or a size from its column: never below zero.
pub fn count_from_column(value: i64) -> (count: u64)
    ensures
        Some(count) == size_of_column(Some(value)),
{
    if value < 0 {
        0
    } else {
        value as u64
    }
}

/// The item a listed row holds.
pub open spec fn item_listed(row: ListedRowView) -> ItemView {
    ItemView {
        seq: row.seq,
        link_id: row.link_id,
        flags: to_flags(row.flags),
        sort_key: row.sort_key,
        object: row.object,
        level: to_level(row.level),
        summary: None,
        retention: match row.retained {
            Some(retained) => Some(
                RetentionView {
                    at: retained.at,
                    by: retained.by,
                    size: size_of_column(retained.size),
                },
            ),
            None => None,
        },
    }
}

/// Maps the item columns every item read leads with; the retained page
/// carries three more, which one mapper reads too.
pub fn item_from_row(row: PimdirListedRow) -> (item: PimdirItem)
    ensures
        item@ == item_listed(row@),
{
    let retention = match row.retained {
        Some(retained) => Some(
            PimdirRetention {
                at: retained.at,
                by: retained.by,
                size: match retained.size {
                    Some(size) => Some(count_from_column(size)),
                    None => None,
                },
            },
        ),
        None => None,
    };
    PimdirItem {
        seq: row.seq,
        link_id: PimdirLinkId(row.link_id),
        flags: flags_from_json(as_borrowed(&row.flags)),
        sort_key: row.sort_key,
        object: to_hash(row.object),
        level: level_from_int(row.level),
        summary: None,
        retention,
    }
}

/// The role an address row plays, the sender's where its column spells
/// none the format has.
pub fn role_or_sender(role: &str) -> (played: PimdirAddressRole)
    ensures
        played == match role_of(role@) {
            Some(played) => played,
            None => PimdirAddressRole::From,
        },
{
    match PimdirAddressRole::parse(role) {
        Some(played) => {
            proof {
                assert(played.text() == role@);
                let named = choose|other: PimdirAddressRole| #[trigger] other.text() == role@;
                lemma_a_role_is_its_spelling(played, named);
            }
            played
        },
        None => PimdirAddressRole::From,
    }
}

/// The order a page is read in.
#[derive(Clone, Copy, Debug, Eq, PartialEq, Structural)]
pub enum PimdirOrder {
    /// By key, the sweep that sees every item once.
    ByLink,
    /// By sort key then public id, ascending.
    Ascending,
    /// By sort key then public id, descending.
    Descending,
}

/// Whether one place in the kind's order comes before another.
pub open spec fn place_before(a: Text, m: i64, b: Text, n: i64) -> bool {
    text_lt(a, b) || a == b && m < n
}

/// Whether an item comes before another in an order.
pub open spec fn item_before(order: PimdirOrder, a: ItemView, b: ItemView) -> bool {
    match order {
        PimdirOrder::ByLink => text_lt(a.link_id, b.link_id),
        PimdirOrder::Ascending => place_before(a.sort_key, a.seq, b.sort_key, b.seq),
        PimdirOrder::Descending => place_before(b.sort_key, b.seq, a.sort_key, a.seq),
    }
}

/// Whether one place in the kind's order comes before another.
fn is_place_before(a: &str, m: i64, b: &str, n: i64) -> (before: bool)
    ensures
        before == place_before(a@, m, b@, n),
{
    text_before(a, b) || (text_same(a, b) && m < n)
}

/// Whether an item comes before another in an order.
fn is_before(order: PimdirOrder, a: &PimdirItem, b: &PimdirItem) -> (before: bool)
    ensures
        before == item_before(order, a@, b@),
{
    match order {
        PimdirOrder::ByLink => text_before(a.link_id.as_str(), b.link_id.as_str()),
        PimdirOrder::Ascending => is_place_before(
            a.sort_key.as_str(),
            a.seq,
            b.sort_key.as_str(),
            b.seq,
        ),
        PimdirOrder::Descending => is_place_before(
            b.sort_key.as_str(),
            b.seq,
            a.sort_key.as_str(),
            a.seq,
        ),
    }
}

/// An arranged page with one more item, behind those it does not precede.
pub open spec fn slotted(order: PimdirOrder, page: Seq<ItemView>, item: ItemView) -> Seq<ItemView>
    decreases page.len(),
{
    if page.len() > 0 && item_before(order, item, page.last()) {
        slotted(order, page.drop_last(), item).push(page.last())
    } else {
        page.push(item)
    }
}

/// Items in an order, those of one place in the order given.
pub open spec fn arranged(order: PimdirOrder, items: Seq<ItemView>) -> Seq<ItemView>
    decreases items.len(),
{
    if items.len() == 0 {
        Seq::empty()
    } else {
        slotted(order, arranged(order, items.drop_last()), items.last())
    }
}

/// Whether no item of a page comes before an earlier one.
pub open spec fn is_arranged(order: PimdirOrder, page: Seq<ItemView>) -> bool {
    forall|i: int, j: int|
        0 <= i < j < page.len() ==> !item_before(order, #[trigger] page[j], #[trigger] page[i])
}

proof fn lemma_before_is_an_order(order: PimdirOrder, a: ItemView, b: ItemView, c: ItemView)
    ensures
        item_before(order, a, b) ==> !item_before(order, b, a),
        !item_before(order, b, a) && !item_before(order, c, b) ==> !item_before(order, c, a),
{
    match order {
        PimdirOrder::ByLink => {
            lemma_text_order(a.link_id, b.link_id, c.link_id);
        },
        _ => {
            lemma_text_order(a.sort_key, b.sort_key, c.sort_key);
            lemma_text_order(c.sort_key, b.sort_key, a.sort_key);
        },
    }
}

proof fn lemma_text_order(a: Text, b: Text, c: Text)
    ensures
        !text_lt(a, a),
        text_lt(a, b) ==> !text_lt(b, a) && a != b,
        a != b ==> text_lt(a, b) || text_lt(b, a),
        b != c ==> text_lt(b, c) || text_lt(c, b),
        a != c ==> text_lt(a, c) || text_lt(c, a),
        text_lt(b, c) ==> !text_lt(c, b),
        text_lt(a, c) ==> !text_lt(c, a),
        text_lt(a, b) && text_lt(b, c) ==> text_lt(a, c),
        text_lt(c, b) && text_lt(b, a) ==> text_lt(c, a),
        text_lt(b, c) && text_lt(c, a) ==> text_lt(b, a),
        text_lt(c, a) && text_lt(a, b) ==> text_lt(c, b),
        text_lt(a, c) && text_lt(c, b) ==> text_lt(a, b),
        text_lt(b, a) && text_lt(a, c) ==> text_lt(b, c),
{
    lemma_text_irreflexive(a);
    lemma_text_irreflexive(b);
    lemma_text_irreflexive(c);
    lemma_text_total(a, b);
    lemma_text_total(b, c);
    lemma_text_total(a, c);
    if text_lt(a, b) {
        if text_lt(b, a) {
            lemma_text_transitive(a, b, a);
        }
        if text_lt(b, c) {
            lemma_text_transitive(a, b, c);
        }
        if text_lt(c, a) {
            lemma_text_transitive(c, a, b);
        }
    }
    if text_lt(b, c) {
        if text_lt(c, b) {
            lemma_text_transitive(b, c, b);
        }
        if text_lt(c, a) {
            lemma_text_transitive(b, c, a);
        }
    }
    if text_lt(a, c) {
        if text_lt(c, a) {
            lemma_text_transitive(a, c, a);
        }
        if text_lt(c, b) {
            lemma_text_transitive(a, c, b);
        }
    }
    if text_lt(c, b) && text_lt(b, a) {
        lemma_text_transitive(c, b, a);
    }
    if text_lt(b, a) && text_lt(a, c) {
        lemma_text_transitive(b, a, c);
    }
}

proof fn lemma_slotted(order: PimdirOrder, page: Seq<ItemView>, item: ItemView)
    requires
        is_arranged(order, page),
    ensures
        is_arranged(order, slotted(order, page, item)),
        slotted(order, page, item).to_multiset() == page.to_multiset().insert(item),
        slotted(order, page, item).len() == page.len() + 1,
        slotted(order, page, item).last() == if page.len() > 0 && item_before(
            order,
            item,
            page.last(),
        ) {
            page.last()
        } else {
            item
        },
    decreases page.len(),
{
    broadcast use vstd::seq_lib::group_to_multiset_ensures;

    let out = slotted(order, page, item);
    if page.len() > 0 && item_before(order, item, page.last()) {
        let rest = page.drop_last();
        assert(is_arranged(order, rest)) by {
            assert forall|i: int, j: int| 0 <= i < j < rest.len() implies !item_before(
                order,
                #[trigger] rest[j],
                #[trigger] rest[i],
            ) by {
                assert(!item_before(order, page[j], page[i]));
            }
        }
        lemma_slotted(order, rest, item);
        let inner = slotted(order, rest, item);
        assert(page =~= rest.push(page.last()));
        assert(out.to_multiset() =~= page.to_multiset().insert(item));
        assert forall|i: int, j: int| 0 <= i < j < out.len() implies !item_before(
            order,
            #[trigger] out[j],
            #[trigger] out[i],
        ) by {
            if j == out.len() - 1 {
                let end = inner.last();
                assert(!item_before(order, page.last(), end)) by {
                    lemma_before_is_an_order(order, item, page.last(), item);
                    if end != item {
                        assert(!item_before(order, page[page.len() - 1], page[page.len() - 2]));
                    }
                }
                if i < inner.len() - 1 {
                    assert(!item_before(order, inner[inner.len() - 1], inner[i]));
                    lemma_before_is_an_order(order, inner[i], end, page.last());
                }
            } else {
                assert(!item_before(order, inner[j], inner[i]));
            }
        }
    } else {
        assert forall|i: int, j: int| 0 <= i < j < out.len() implies !item_before(
            order,
            #[trigger] out[j],
            #[trigger] out[i],
        ) by {
            if j == out.len() - 1 {
                if i < page.len() - 1 {
                    assert(!item_before(order, page[page.len() - 1], page[i]));
                    lemma_before_is_an_order(order, page[i], page.last(), item);
                }
            } else {
                assert(!item_before(order, page[j], page[i]));
            }
        }
    }
}

/// A page in an order holds the items it was made from, each as often, and
/// none comes before an earlier one.
pub proof fn lemma_arranging_loses_no_item(order: PimdirOrder, items: Seq<ItemView>)
    ensures
        is_arranged(order, arranged(order, items)),
        arranged(order, items).to_multiset() == items.to_multiset(),
        arranged(order, items).len() == items.len(),
    decreases items.len(),
{
    broadcast use vstd::seq_lib::group_to_multiset_ensures;

    if items.len() == 0 {
        assert(arranged(order, items) =~= items);
    } else {
        lemma_arranging_loses_no_item(order, items.drop_last());
        lemma_slotted(order, arranged(order, items.drop_last()), items.last());
        assert(items =~= items.drop_last().push(items.last()));
    }
}

/// A page that stands in an order stays as it is.
pub proof fn lemma_an_arranged_page_stays(order: PimdirOrder, page: Seq<ItemView>)
    requires
        is_arranged(order, page),
    ensures
        arranged(order, page) == page,
    decreases page.len(),
{
    if page.len() > 0 {
        let rest = page.drop_last();
        assert forall|i: int, j: int| 0 <= i < j < rest.len() implies !item_before(
            order,
            #[trigger] rest[j],
            #[trigger] rest[i],
        ) by {
            assert(!item_before(order, page[j], page[i]));
        }
        lemma_an_arranged_page_stays(order, rest);
        if rest.len() > 0 {
            assert(!item_before(order, page[page.len() - 1], page[page.len() - 2]));
        }
        assert(page =~= rest.push(page.last()));
    } else {
        assert(page =~= Seq::empty());
    }
}

proof fn lemma_slot(order: PimdirOrder, page: Seq<ItemView>, item: ItemView, at: int)
    requires
        0 <= at <= page.len(),
        forall|j: int| at <= j < page.len() ==> item_before(order, item, #[trigger] page[j]),
        at > 0 ==> !item_before(order, item, page[at - 1]),
    ensures
        slotted(order, page, item) == page.insert(at, item),
    decreases page.len(),
{
    if page.len() > at {
        let rest = page.drop_last();
        assert forall|j: int| at <= j < rest.len() implies item_before(
            order,
            item,
            #[trigger] rest[j],
        ) by {
            assert(rest[j] == page[j]);
        }
        assert(item_before(order, item, page[page.len() - 1]));
        lemma_slot(order, rest, item, at);
        assert(rest.insert(at, item).push(page.last()) =~= page.insert(at, item));
    } else {
        assert(page.push(item) =~= page.insert(at, item));
    }
}

/// Puts items in an order, those of one place in the order given.
pub fn arrange(order: PimdirOrder, items: Vec<PimdirItem>) -> (page: Vec<PimdirItem>)
    ensures
        page.deep_view() == arranged(order, items.deep_view()),
{
    let ghost all = items.deep_view();
    let mut left = items;
    let mut page: Vec<PimdirItem> = Vec::new();
    let ghost mut done: int = 0;
    assert(page.deep_view() =~= Seq::empty());
    assert(all.skip(0) =~= all);
    while left.len() > 0
        invariant
            0 <= done <= all.len(),
            left.deep_view() == all.skip(done),
            page.deep_view() == arranged(order, all.take(done)),
        decreases left.len(),
    {
        let ghost before = page.deep_view();
        let ghost rest = left.deep_view();
        assert(rest[0] == left@[0]@ && rest.len() == left.len());
        assert(all.skip(done)[0] == all[done]);
        let item = left.remove(0);
        proof {
            assert(item@ == all[done]);
            assert(left.deep_view() =~= rest.remove(0));
            assert(left.deep_view() =~= all.skip(done + 1));
            assert(all.take(done + 1).drop_last() =~= all.take(done));
            assert(all.take(done + 1).last() == item@);
        }
        let mut at: usize = page.len();
        while at > 0 && is_before(order, &item, &page[at - 1])
            invariant
                at <= page.len(),
                page.deep_view() == before,
                forall|j: int|
                    at <= j < before.len() ==> item_before(order, item@, #[trigger] before[j]),
            decreases at,
        {
            assert(before[at - 1] == page@[at - 1]@);
            at = at - 1;
        }
        proof {
            if at > 0 {
                assert(before[at - 1] == page@[at - 1]@);
            }
            lemma_slot(order, before, item@, at as int);
        }
        page.insert(at, item);
        assert(page.deep_view() =~= before.insert(at as int, item@));
        proof {
            done = done + 1;
        }
    }
    assert(all.take(done) =~= all);
    page
}

/// Whether an item stands inside a page that starts past a cursor.
pub open spec fn inside(order: PimdirOrder, after: Option<CursorView>, item: ItemView) -> bool {
    match after {
        None => true,
        Some(after) => match order {
            PimdirOrder::ByLink => text_lt(after.key, item.link_id),
            PimdirOrder::Ascending => place_before(after.key, after.seq, item.sort_key, item.seq),
            PimdirOrder::Descending => place_before(item.sort_key, item.seq, after.key, after.seq),
        },
    }
}

/// Whether an item stands inside a page that starts past a cursor.
fn is_inside(order: PimdirOrder, after: &Option<PimdirCursor>, item: &PimdirItem) -> (yes: bool)
    ensures
        yes == inside(order, after.deep_view(), item@),
{
    match after {
        None => true,
        Some(after) => match order {
            PimdirOrder::ByLink => text_before(after.key.as_str(), item.link_id.as_str()),
            PimdirOrder::Ascending => is_place_before(
                after.key.as_str(),
                after.seq,
                item.sort_key.as_str(),
                item.seq,
            ),
            PimdirOrder::Descending => is_place_before(
                item.sort_key.as_str(),
                item.seq,
                after.key.as_str(),
                after.seq,
            ),
        },
    }
}

/// The tables a page of summaries is read from and its direction: newest
/// first for mail, ascending for contacts and calendars, a calendar's three
/// tables merged. `None` for a collection whose kind was never declared,
/// which pages without summaries.
pub fn summary_listing(kind: &str) -> (listing: Option<(Vec<PimdirSummaryTable>, PimdirOrder)>)
    ensures
        match listing {
            Some((tables, order)) => tables@ == tables_for(kind@) && tables_for(kind@).len() < 5
                && order == if tables_for(kind@) == seq![PimdirSummaryTable::Mail] {
                PimdirOrder::Descending
            } else {
                PimdirOrder::Ascending
            },
            None => tables_for(kind@).len() == 5,
        },
{
    let tables = tables_of(kind);
    if tables.len() == 5 {
        return None;
    }
    let mail = match tables[0] {
        PimdirSummaryTable::Mail => true,
        _ => false,
    };
    proof {
        let contact = seq![PimdirSummaryTable::Contact];
        let calendar = seq![
            PimdirSummaryTable::Event,
            PimdirSummaryTable::Task,
            PimdirSummaryTable::Journal,
        ];
        assert(contact[0] != seq![PimdirSummaryTable::Mail][0]);
        assert(calendar[0] != seq![PimdirSummaryTable::Mail][0]);
    }
    let order = if mail {
        PimdirOrder::Descending
    } else {
        PimdirOrder::Ascending
    };
    Some((tables, order))
}

/// A page with one table's row of an item: the row whose summary is there
/// wins, and an item no row named yet joins.
pub open spec fn with_row(page: Seq<ItemView>, row: ItemView) -> Seq<ItemView> {
    let at = seq_at(page, row.seq);
    if at < page.len() {
        if page[at].summary is None {
            page.update(at, ItemView { summary: row.summary, ..page[at] })
        } else {
            page
        }
    } else {
        page.push(row)
    }
}

/// Where a public id first stands in a page, its length where it does not.
pub open spec fn seq_at(page: Seq<ItemView>, seq: i64) -> int
    decreases page.len(),
{
    if page.len() == 0 {
        0
    } else if page[0].seq == seq {
        0
    } else {
        1 + seq_at(page.drop_first(), seq)
    }
}

proof fn lemma_seq_at(page: Seq<ItemView>, seq: i64, at: int)
    requires
        0 <= at <= page.len(),
        forall|j: int| 0 <= j < at ==> (#[trigger] page[j]).seq != seq,
        at < page.len() ==> page[at].seq == seq,
    ensures
        seq_at(page, seq) == at,
    decreases page.len(),
{
    if at > 0 {
        let rest = page.drop_first();
        assert(page[0].seq != seq);
        assert forall|j: int| 0 <= j < at - 1 implies (#[trigger] rest[j]).seq != seq by {
            assert(rest[j] == page[j + 1]);
        }
        lemma_seq_at(rest, seq, at - 1);
    }
}

/// Where a public id first stands in a page.
fn find_seq(page: &Vec<PimdirItem>, seq: i64) -> (at: usize)
    ensures
        at == seq_at(page.deep_view(), seq),
        at <= page.len(),
{
    let mut at: usize = 0;
    while at < page.len() && page[at].seq != seq
        invariant
            at <= page.len(),
            forall|j: int| 0 <= j < at ==> (#[trigger] page.deep_view()[j]).seq != seq,
        decreases page.len() - at,
    {
        assert(page.deep_view()[at as int] == page@[at as int]@);
        at = at + 1;
    }
    proof {
        if at < page.len() {
            assert(page.deep_view()[at as int] == page@[at as int]@);
        }
        lemma_seq_at(page.deep_view(), seq, at as int);
    }
    at
}

/// The rows of several tables, merged by item.
pub open spec fn merged(rows: Seq<ItemView>) -> Seq<ItemView>
    decreases rows.len(),
{
    if rows.len() == 0 {
        Seq::empty()
    } else {
        with_row(merged(rows.drop_last()), rows.last())
    }
}

/// Merges the rows a calendar's tables each answered with, table after
/// table, into one page: in ascending order, at most `limit` of them.
pub fn merge_tables(rows: &Vec<PimdirItem>, limit: usize) -> (page: Vec<PimdirItem>)
    ensures
        page.deep_view() == at_most(
            arranged(PimdirOrder::Ascending, merged(rows.deep_view())),
            limit as nat,
        ),
{
    let mut page: Vec<PimdirItem> = Vec::new();
    let ghost all = rows.deep_view();
    let mut i: usize = 0;
    assert(page.deep_view() =~= Seq::empty());
    while i < rows.len()
        invariant
            i <= rows.len(),
            all == rows.deep_view(),
            page.deep_view() == merged(all.take(i as int)),
        decreases rows.len() - i,
    {
        let ghost before = page.deep_view();
        let row = &rows[i];
        proof {
            assert(all.take(i + 1).drop_last() =~= all.take(i as int));
            assert(all.take(i + 1).last() == row@);
        }
        let at = find_seq(&page, row.seq);
        if at < page.len() {
            assert(before[at as int] == page@[at as int]@);
            if page[at].summary.is_none() {
                let mut held = page[at].clone();
                held.summary = row.summary.clone();
                page.set(at, held);
                assert(page.deep_view() =~= with_row(before, row@));
            }
        } else {
            push_to(&mut page, row.clone());
        }
        assert(page.deep_view() =~= with_row(before, row@));
        i = i + 1;
    }
    assert(all.take(i as int) =~= all);
    shorten(arrange(PimdirOrder::Ascending, page), limit)
}

/// The first items of a page.
pub open spec fn at_most(page: Seq<ItemView>, limit: nat) -> Seq<ItemView> {
    if page.len() > limit {
        page.take(limit as int)
    } else {
        page
    }
}

/// Keeps the first items of a page.
fn shorten(page: Vec<PimdirItem>, limit: usize) -> (first: Vec<PimdirItem>)
    ensures
        first.deep_view() == at_most(page.deep_view(), limit as nat),
{
    let ghost all = page.deep_view();
    let mut first = page;
    if first.len() > limit {
        first.truncate(limit);
        assert(first.deep_view() =~= all.take(limit as int));
    }
    first
}

/// Where a key first stands in a page, its length where it does not.
pub open spec fn link_at(page: Seq<ItemView>, link: Text) -> int
    decreases page.len(),
{
    if page.len() == 0 {
        0
    } else if page[0].link_id == link {
        0
    } else {
        1 + link_at(page.drop_first(), link)
    }
}

proof fn lemma_link_at(page: Seq<ItemView>, link: Text, at: int)
    requires
        0 <= at <= page.len(),
        forall|j: int| 0 <= j < at ==> (#[trigger] page[j]).link_id != link,
        at < page.len() ==> page[at].link_id == link,
    ensures
        link_at(page, link) == at,
    decreases page.len(),
{
    if at > 0 {
        let rest = page.drop_first();
        assert(page[0].link_id != link);
        assert forall|j: int| 0 <= j < at - 1 implies (#[trigger] rest[j]).link_id != link by {
            assert(rest[j] == page[j + 1]);
        }
        lemma_link_at(rest, link, at - 1);
    }
}

/// Where a key first stands in a page.
fn find_link(page: &Vec<PimdirItem>, link: &str) -> (at: usize)
    ensures
        at == link_at(page.deep_view(), link@),
        at <= page.len(),
{
    let mut at: usize = 0;
    while at < page.len() && !text_same(page[at].link_id.as_str(), link)
        invariant
            at <= page.len(),
            forall|j: int| 0 <= j < at ==> (#[trigger] page.deep_view()[j]).link_id != link@,
        decreases page.len() - at,
    {
        assert(page.deep_view()[at as int] == page@[at as int]@);
        at = at + 1;
    }
    proof {
        if at < page.len() {
            assert(page.deep_view()[at as int] == page@[at as int]@);
        }
        lemma_link_at(page.deep_view(), link@, at as int);
    }
    at
}

/// A page with one more summary joined.
pub open spec fn summary_joined(page: Seq<ItemView>, row: SummaryRowView) -> Seq<ItemView> {
    let at = link_at(page, row.link_id);
    if at < page.len() {
        page.update(at, ItemView { summary: Some(row.summary), ..page[at] })
    } else {
        page
    }
}

/// A page with summaries joined by key.
pub open spec fn summaries_joined(page: Seq<ItemView>, rows: Seq<SummaryRowView>) -> Seq<ItemView>
    decreases rows.len(),
{
    if rows.len() == 0 {
        page
    } else {
        summary_joined(summaries_joined(page, rows.drop_last()), rows.last())
    }
}

/// A page with one more address joined, where its item has a summary and
/// its role is one the format has.
pub open spec fn address_joined(page: Seq<ItemView>, row: AddressRowView) -> Seq<ItemView> {
    let at = link_at(page, row.link_id);
    match role_of(row.role) {
        Some(role) => if at < page.len() {
            match page[at].summary {
                Some(summary) => page.update(
                    at,
                    ItemView {
                        summary: Some(
                            with_person(
                                summary,
                                role,
                                AddressView { address: row.address, name: row.name },
                            ),
                        ),
                        ..page[at]
                    },
                ),
                None => page,
            }
        } else {
            page
        },
        None => page,
    }
}

/// A page with addresses joined by key.
pub open spec fn addresses_joined(page: Seq<ItemView>, rows: Seq<AddressRowView>) -> Seq<ItemView>
    decreases rows.len(),
{
    if rows.len() == 0 {
        page
    } else {
        address_joined(addresses_joined(page, rows.drop_last()), rows.last())
    }
}

/// Joins the address rows onto a page's summaries.
pub fn attach_addresses(page: &mut Vec<PimdirItem>, rows: &Vec<PimdirAddressRow>)
    ensures
        final(page).deep_view() == addresses_joined(old(page).deep_view(), rows.deep_view()),
{
    let ghost start = page.deep_view();
    let ghost all = rows.deep_view();
    let mut i: usize = 0;
    while i < rows.len()
        invariant
            i <= rows.len(),
            all == rows.deep_view(),
            page.deep_view() == addresses_joined(start, all.take(i as int)),
        decreases rows.len() - i,
    {
        let ghost before = page.deep_view();
        let row = &rows[i];
        proof {
            assert(all.take(i + 1).drop_last() =~= all.take(i as int));
            assert(all.take(i + 1).last() == row@);
        }
        let at = find_link(page, row.link_id.as_str());
        let role = PimdirAddressRole::parse(row.role.as_str());
        proof {
            if let Some(role) = role {
                assert(role.text() == row.role@);
                let named = choose|other: PimdirAddressRole| #[trigger] other.text() == row.role@;
                lemma_a_role_is_its_spelling(role, named);
            }
            assert(role == role_of(row.role@));
        }
        if let Some(role) = role {
            if at < page.len() {
                assert(before[at as int] == page@[at as int]@);
                let held = page[at].clone();
                if let Some(summary) = held.summary.clone() {
                    let person = PimdirAddress {
                        address: row.address.clone(),
                        name: row.name.clone(),
                    };
                    let mut held = held;
                    held.summary = Some(attach_address(summary, role, person));
                    page.set(at, held);
                }
            }
        }
        assert(page.deep_view() =~= address_joined(before, row@));
        i = i + 1;
    }
    assert(all.take(i as int) =~= all);
}

/// Joins the summary rows and their addresses onto items read without them,
/// the trash view's.
pub fn attach_summaries(
    page: &mut Vec<PimdirItem>,
    summaries: &Vec<PimdirSummaryRow>,
    addresses: &Vec<PimdirAddressRow>,
)
    ensures
        final(page).deep_view() == addresses_joined(
            summaries_joined(old(page).deep_view(), summaries.deep_view()),
            addresses.deep_view(),
        ),
{
    let ghost start = page.deep_view();
    let ghost all = summaries.deep_view();
    let mut i: usize = 0;
    while i < summaries.len()
        invariant
            i <= summaries.len(),
            all == summaries.deep_view(),
            page.deep_view() == summaries_joined(start, all.take(i as int)),
        decreases summaries.len() - i,
    {
        let ghost before = page.deep_view();
        let row = &summaries[i];
        proof {
            assert(all.take(i + 1).drop_last() =~= all.take(i as int));
            assert(all.take(i + 1).last() == row@);
        }
        let at = find_link(page, row.link_id.as_str());
        if at < page.len() {
            assert(before[at as int] == page@[at as int]@);
            let mut held = page[at].clone();
            held.summary = Some(row.summary.clone());
            page.set(at, held);
        }
        assert(page.deep_view() =~= summary_joined(before, row@));
        i = i + 1;
    }
    assert(all.take(i as int) =~= all);
    attach_addresses(page, addresses);
}

/// The first summary among what several tables answered of one item.
pub open spec fn first_summary(rows: Seq<Option<ItemView>>) -> Option<SummaryView>
    decreases rows.len(),
{
    if rows.len() == 0 {
        None
    } else {
        match rows[0] {
            Some(item) => if item.summary is Some {
                item.summary
            } else {
                first_summary(rows.drop_first())
            },
            None => first_summary(rows.drop_first()),
        }
    }
}

/// One live item as several tables answered of it: not there where one of
/// them lacks it, else with the first summary found.
pub open spec fn committed(rows: Seq<Option<ItemView>>) -> Option<ItemView> {
    if rows.len() == 0 || exists|i: int| 0 <= i < rows.len() && #[trigger] rows[i] is None {
        None
    } else {
        Some(ItemView { summary: first_summary(rows), ..rows[0]->0 })
    }
}

/// One live item as the committed rows hold it, with its summary.
pub fn committed_item(rows: &Vec<Option<PimdirItem>>) -> (item: Option<PimdirItem>)
    ensures
        item.deep_view() == committed(rows.deep_view()),
{
    if rows.len() == 0 {
        return None;
    }
    let ghost all = rows.deep_view();
    let mut summary: Option<PimdirSummary> = None;
    let mut i: usize = 0;
    assert(all.skip(0) =~= all);
    while i < rows.len()
        invariant
            i <= rows.len(),
            all == rows.deep_view(),
            rows.len() > 0,
            forall|j: int| 0 <= j < i ==> #[trigger] all[j] is Some,
            first_summary(all) == if summary is Some {
                summary.deep_view()
            } else {
                first_summary(all.skip(i as int))
            },
        decreases rows.len() - i,
    {
        assert(all[i as int] == rows@[i as int].deep_view());
        assert(all.skip(i as int)[0] == all[i as int]);
        assert(all.skip(i as int).drop_first() =~= all.skip(i + 1));
        match &rows[i] {
            None => {
                assert(all[i as int] is None);
                return None;
            },
            Some(item) => {
                if summary.is_none() {
                    summary = item.summary.clone();
                }
            },
        }
        i = i + 1;
    }
    assert(all.skip(i as int).len() == 0);
    match &rows[0] {
        Some(item) => {
            assert(all[0] == rows@[0].deep_view());
            let mut held = item.clone();
            held.summary = summary;
            Some(held)
        },
        None => {
            assert(all[0] is Some);
            None
        },
    }
}

/// The actions pending on one item, in append order.
#[derive(Debug, PartialEq, Eq)]
pub struct PimdirEdits(pub Vec<PimdirAction>);

impl View for PimdirEdits {
    type V = Seq<ActionView>;

    open spec fn view(&self) -> Seq<ActionView> {
        self.0.deep_view()
    }
}

/// What the pending queue changes about one collection.
#[derive(Debug, PartialEq, Eq)]
pub struct PimdirPending {
    /// Actions restating or removing an item the collection holds, by
    /// public id.
    pub edits: IdMap<PimdirEdits>,
    /// Items another collection's pending move or copy brings in, mapped to
    /// the collection their row is still read from.
    pub arrivals: IdMap<String>,
}

/// What a [`PimdirPending`] says, by value.
#[verifier::ext_equal]
pub struct PendingView {
    pub edits: Map<i64, Seq<ActionView>>,
    pub arrivals: Map<i64, Text>,
}

impl View for PimdirPending {
    type V = PendingView;

    open spec fn view(&self) -> PendingView {
        PendingView { edits: self.edits@, arrivals: self.arrivals@ }
    }
}

/// The actions pending on an item.
pub open spec fn edits_of(edits: Map<i64, Seq<ActionView>>, seq: i64) -> Seq<ActionView> {
    if edits.dom().contains(seq) {
        edits[seq]
    } else {
        Seq::empty()
    }
}

/// One more action pending on an item.
pub open spec fn edit_noted(pending: PendingView, seq: i64, action: ActionView) -> PendingView {
    PendingView {
        edits: pending.edits.insert(seq, edits_of(pending.edits, seq).push(action)),
        ..pending
    }
}

/// One more queued action, as it bears on a collection: an edit of an item
/// it holds, a move out of it, or a move or a copy into it.
pub open spec fn noted(collection: Text, pending: PendingView, queued: QueuedView) -> PendingView {
    let here = queued.from == collection;
    match queued.action.action {
        ActionView::SetFlags { seq, .. } => if here {
            edit_noted(pending, seq, queued.action.action)
        } else {
            pending
        },
        ActionView::Update { seq, .. } => if here {
            edit_noted(pending, seq, queued.action.action)
        } else {
            pending
        },
        ActionView::Remove { seq } => if here {
            edit_noted(pending, seq, queued.action.action)
        } else {
            pending
        },
        ActionView::Move { seq, to } => if here && to != collection {
            edit_noted(pending, seq, ActionView::Remove { seq })
        } else if !here && to == collection {
            PendingView { arrivals: pending.arrivals.insert(seq, queued.from), ..pending }
        } else {
            pending
        },
        ActionView::Copy { seq, to } => if !here && to == collection {
            PendingView { arrivals: pending.arrivals.insert(seq, queued.from), ..pending }
        } else {
            pending
        },
        _ => pending,
    }
}

/// Queued actions by append id, one more placed.
pub open spec fn appended(list: Seq<QueuedView>, queued: QueuedView) -> Seq<QueuedView>
    decreases list.len(),
{
    if list.len() > 0 && queued.action.id < list.last().action.id {
        appended(list.drop_last(), queued).push(list.last())
    } else {
        list.push(queued)
    }
}

/// Queued actions in global append order.
pub open spec fn in_append_order(list: Seq<QueuedView>) -> Seq<QueuedView>
    decreases list.len(),
{
    if list.len() == 0 {
        Seq::empty()
    } else {
        appended(in_append_order(list.drop_last()), list.last())
    }
}

/// What queued actions change about a collection, walked in order.
pub open spec fn all_noted(collection: Text, queued: Seq<QueuedView>) -> PendingView
    decreases queued.len(),
{
    if queued.len() == 0 {
        PendingView { edits: Map::empty(), arrivals: Map::empty() }
    } else {
        noted(collection, all_noted(collection, queued.drop_last()), queued.last())
    }
}

proof fn lemma_append_slot(list: Seq<QueuedView>, queued: QueuedView, at: int)
    requires
        0 <= at <= list.len(),
        forall|j: int| at <= j < list.len() ==> queued.action.id < (#[trigger] list[j]).action.id,
        at > 0 ==> queued.action.id >= list[at - 1].action.id,
    ensures
        appended(list, queued) == list.insert(at, queued),
    decreases list.len(),
{
    if list.len() > at {
        let rest = list.drop_last();
        assert forall|j: int| at <= j < rest.len() implies queued.action.id < (
        #[trigger] rest[j]).action.id by {
            assert(rest[j] == list[j]);
        }
        assert(queued.action.id < list[list.len() - 1].action.id);
        lemma_append_slot(rest, queued, at);
        assert(rest.insert(at, queued).push(list.last()) =~= list.insert(at, queued));
    } else {
        assert(list.push(queued) =~= list.insert(at, queued));
    }
}

/// Puts queued actions in global append order.
fn order_queue(queued: Vec<PimdirQueued>) -> (list: Vec<PimdirQueued>)
    ensures
        list.deep_view() == in_append_order(queued.deep_view()),
{
    let ghost all = queued.deep_view();
    let mut left = queued;
    let mut list: Vec<PimdirQueued> = Vec::new();
    let ghost mut done: int = 0;
    assert(list.deep_view() =~= Seq::empty());
    assert(all.skip(0) =~= all);
    while left.len() > 0
        invariant
            0 <= done <= all.len(),
            left.deep_view() == all.skip(done),
            list.deep_view() == in_append_order(all.take(done)),
        decreases left.len(),
    {
        let ghost before = list.deep_view();
        let ghost rest = left.deep_view();
        assert(rest[0] == left@[0]@ && rest.len() == left.len());
        assert(all.skip(done)[0] == all[done]);
        let next = left.remove(0);
        proof {
            assert(next@ == all[done]);
            assert(left.deep_view() =~= rest.remove(0));
            assert(left.deep_view() =~= all.skip(done + 1));
            assert(all.take(done + 1).drop_last() =~= all.take(done));
            assert(all.take(done + 1).last() == next@);
        }
        let mut at: usize = list.len();
        while at > 0 && next.action.id < list[at - 1].action.id
            invariant
                at <= list.len(),
                list.deep_view() == before,
                forall|j: int|
                    at <= j < before.len() ==> next@.action.id < (#[trigger] before[j]).action.id,
            decreases at,
        {
            assert(before[at - 1] == list@[at - 1]@);
            at = at - 1;
        }
        proof {
            if at > 0 {
                assert(before[at - 1] == list@[at - 1]@);
            }
            lemma_append_slot(before, next@, at as int);
        }
        list.insert(at, next);
        assert(list.deep_view() =~= before.insert(at as int, next@));
        proof {
            done = done + 1;
        }
    }
    assert(all.take(done) =~= all);
    list
}

/// Notes one more action pending on an item.
fn note_edit(edits: &mut IdMap<PimdirEdits>, seq: i64, action: PimdirAction)
    ensures
        final(edits)@ == old(edits)@.insert(seq, edits_of(old(edits)@, seq).push(action@)),
{
    let ghost before = edits@;
    let mut actions: Vec<PimdirAction> = match edits.remove(seq) {
        Some(held) => held.0,
        None => {
            let none: Vec<PimdirAction> = Vec::new();
            assert(none.deep_view() =~= Seq::empty());
            none
        },
    };
    push_to(&mut actions, action);
    edits.insert(seq, PimdirEdits(actions));
    assert(edits@ =~= before.insert(seq, edits_of(before, seq).push(action@)));
}

/// Folds the store's pending queue into what it changes about one
/// collection, walked in global append order.
pub fn pending(collection: &str, queued: Vec<PimdirQueued>) -> (pending: PimdirPending)
    ensures
        pending@ == all_noted(collection@, in_append_order(queued.deep_view())),
{
    let list = order_queue(queued);
    let ghost all = list.deep_view();
    let mut edits: IdMap<PimdirEdits> = IdMap::new();
    let mut arrivals: IdMap<String> = IdMap::new();
    let mut i: usize = 0;
    while i < list.len()
        invariant
            i <= list.len(),
            all == list.deep_view(),
            (PendingView { edits: edits@, arrivals: arrivals@ }) == all_noted(
                collection@,
                all.take(i as int),
            ),
        decreases list.len() - i,
    {
        let queued = &list[i];
        proof {
            assert(all.take(i + 1).drop_last() =~= all.take(i as int));
            assert(all.take(i + 1).last() == queued@);
        }
        let here = text_same(queued.from.as_str(), collection);
        match &queued.action.action {
            PimdirAction::SetFlags { seq, .. }
            | PimdirAction::Update { seq, .. }
            | PimdirAction::Remove { seq } => {
                if here {
                    note_edit(&mut edits, *seq, queued.action.action.clone());
                }
            },
            PimdirAction::Move { seq, to } => {
                let inward = text_same(to.as_str(), collection);
                if here && !inward {
                    note_edit(&mut edits, *seq, PimdirAction::Remove { seq: *seq });
                } else if !here && inward {
                    arrivals.insert(*seq, queued.from.clone());
                }
            },
            PimdirAction::Copy { seq, to } => {
                if !here && text_same(to.as_str(), collection) {
                    arrivals.insert(*seq, queued.from.clone());
                }
            },
            _ => {},
        }
        i = i + 1;
    }
    assert(all.take(i as int) =~= all);
    PimdirPending { edits, arrivals }
}

/// Whether actions take an item out of the collection.
pub open spec fn removes(actions: Seq<ActionView>) -> bool {
    exists|i: int| 0 <= i < actions.len() && #[trigger] actions[i] is Remove
}

/// Whether actions take an item out of the collection.
fn any_removes(actions: &Vec<PimdirAction>) -> (yes: bool)
    ensures
        yes == removes(actions.deep_view()),
{
    let ghost all = actions.deep_view();
    let mut i: usize = 0;
    while i < actions.len()
        invariant
            i <= actions.len(),
            all == actions.deep_view(),
            forall|j: int| 0 <= j < i ==> !(#[trigger] all[j] is Remove),
        decreases actions.len() - i,
    {
        assert(all[i as int] == actions@[i as int]@);
        if let PimdirAction::Remove { .. } = &actions[i] {
            return true;
        }
        i = i + 1;
    }
    false
}

/// How many of some items actions take out of the collection.
pub open spec fn removals_among(edits: Map<i64, Seq<ActionView>>, ids: Seq<i64>) -> nat
    decreases ids.len(),
{
    if ids.len() == 0 {
        0
    } else {
        removals_among(edits, ids.drop_last()) + if removes(edits[ids.last()]) {
            1nat
        } else {
            0nat
        }
    }
}

impl PimdirPending {
    /// How many rows the fold can drop from a page.
    pub fn removals(&self) -> (count: usize)
        ensures
            count == removals_among(self@.edits, ids_in_order(self@.edits.dom())),
    {
        let n: usize = self.edits.len();
        let ghost ids = self.edits.keys();
        let mut count: usize = 0;
        let mut i: usize = 0;
        while i < n
            invariant
                i <= n,
                n == ids.len(),
                ids == self.edits.keys(),
                count <= i,
                count == removals_among(self@.edits, ids.take(i as int)),
            decreases n - i,
        {
            proof {
                assert(ids.take(i + 1).drop_last() =~= ids.take(i as int));
                assert(ids.take(i + 1).last() == ids[i as int]);
            }
            if any_removes(&self.edits.value_at(i).0) {
                count = count + 1;
            }
            i = i + 1;
        }
        assert(ids.take(i as int) =~= ids);
        count
    }

    /// How many rows a page has to read: past its limit by the pending
    /// removals, so it comes back short only where the collection ends.
    pub fn fetch_limit(&self, limit: usize) -> (fetched: usize)
        ensures
            ({
                let wanted = limit + removals_among(
                    self@.edits,
                    ids_in_order(self@.edits.dom()),
                );
                fetched == if wanted <= usize::MAX {
                    wanted
                } else {
                    usize::MAX as int
                }
            }),
    {
        let more = self.removals();
        if more <= usize::MAX - limit {
            limit + more
        } else {
            usize::MAX
        }
    }
}

/// An item with its pending actions folded in, `None` when they take it out
/// of the collection: a flag set is absolute, an update repoints the body.
pub open spec fn folded(item: ItemView, actions: Seq<ActionView>) -> Option<ItemView>
    decreases actions.len(),
{
    if actions.len() == 0 {
        Some(item)
    } else {
        match folded(item, actions.drop_last()) {
            None => None,
            Some(item) => match actions.last() {
                ActionView::SetFlags { flags, .. } => Some(ItemView { flags, ..item }),
                ActionView::Update { object, .. } => Some(
                    ItemView { object: Some(object), level: PimdirLevel::Full, ..item },
                ),
                ActionView::Remove { .. } => None,
                _ => Some(item),
            },
        }
    }
}

proof fn lemma_gone_stays_gone(item: ItemView, actions: Seq<ActionView>, i: int)
    requires
        0 <= i <= actions.len(),
        folded(item, actions.take(i)) is None,
    ensures
        folded(item, actions) is None,
    decreases actions.len() - i,
{
    if i < actions.len() {
        assert(actions.take(i + 1).drop_last() =~= actions.take(i));
        lemma_gone_stays_gone(item, actions, i + 1);
    } else {
        assert(actions.take(i) =~= actions);
    }
}

/// Folds an item's pending actions into it, `None` when they take it out of
/// the collection.
pub fn fold(item: PimdirItem, pending: &PimdirPending) -> (folding: Option<PimdirItem>)
    ensures
        folding.deep_view() == folded(item@, edits_of(pending@.edits, item@.seq)),
{
    let actions = match pending.edits.get(item.seq) {
        Some(actions) => &actions.0,
        None => {
            return Some(item);
        },
    };
    let ghost all = actions.deep_view();
    let ghost start = item@;
    let mut shown = item.clone();
    let mut i: usize = 0;
    while i < actions.len()
        invariant
            i <= actions.len(),
            all == actions.deep_view(),
            start == item@,
            all == edits_of(pending@.edits, start.seq),
            folded(start, all.take(i as int)) == Some(shown@),
        decreases actions.len() - i,
    {
        proof {
            assert(all.take(i + 1).drop_last() =~= all.take(i as int));
            assert(all.take(i + 1).last() == actions@[i as int]@);
        }
        match &actions[i] {
            PimdirAction::SetFlags { flags, .. } => {
                shown.flags = flags.clone();
            },
            PimdirAction::Update { object, .. } => {
                shown.object = Some(object.clone());
                shown.level = PimdirLevel::Full;
            },
            PimdirAction::Remove { .. } => {
                proof {
                    lemma_gone_stays_gone(start, all, i + 1);
                }
                return None;
            },
            _ => {},
        }
        i = i + 1;
    }
    assert(all.take(i as int) =~= all);
    Some(shown)
}

/// The items of a page the pending actions leave in it, folded.
pub open spec fn kept(edits: Map<i64, Seq<ActionView>>, page: Seq<ItemView>) -> Seq<ItemView>
    decreases page.len(),
{
    if page.len() == 0 {
        Seq::empty()
    } else {
        let rest = kept(edits, page.drop_last());
        match folded(page.last(), edits_of(edits, page.last().seq)) {
            Some(item) => rest.push(item),
            None => rest,
        }
    }
}

/// Folds a page, leaving out what the pending actions take away.
fn keep(page: &Vec<PimdirItem>, pending: &PimdirPending) -> (left: Vec<PimdirItem>)
    ensures
        left.deep_view() == kept(pending@.edits, page.deep_view()),
{
    let mut left: Vec<PimdirItem> = Vec::new();
    let ghost all = page.deep_view();
    let mut i: usize = 0;
    assert(left.deep_view() =~= Seq::empty());
    while i < page.len()
        invariant
            i <= page.len(),
            all == page.deep_view(),
            left.deep_view() == kept(pending@.edits, all.take(i as int)),
        decreases page.len() - i,
    {
        proof {
            assert(all.take(i + 1).drop_last() =~= all.take(i as int));
            assert(all.take(i + 1).last() == page@[i as int]@);
        }
        if let Some(item) = fold(page[i].clone(), pending) {
            push_to(&mut left, item);
        }
        i = i + 1;
    }
    assert(all.take(i as int) =~= all);
    left
}

/// The items that are there, of those looked up.
pub open spec fn present(rows: Seq<Option<ItemView>>) -> Seq<ItemView>
    decreases rows.len(),
{
    if rows.len() == 0 {
        Seq::empty()
    } else {
        let rest = present(rows.drop_last());
        match rows.last() {
            Some(item) => rest.push(item),
            None => rest,
        }
    }
}

/// The items pending moves and copies bring into the collection, `rows`
/// holding what the committed rows say of each arrival, in the order of
/// their public ids.
pub fn arrived(rows: &Vec<Option<PimdirItem>>, pending: &PimdirPending) -> (items: Vec<PimdirItem>)
    ensures
        items.deep_view() == kept(pending@.edits, present(rows.deep_view())),
{
    let mut there: Vec<PimdirItem> = Vec::new();
    let ghost all = rows.deep_view();
    let mut i: usize = 0;
    assert(there.deep_view() =~= Seq::empty());
    while i < rows.len()
        invariant
            i <= rows.len(),
            all == rows.deep_view(),
            there.deep_view() == present(all.take(i as int)),
        decreases rows.len() - i,
    {
        proof {
            assert(all.take(i + 1).drop_last() =~= all.take(i as int));
            assert(all.take(i + 1).last() == rows@[i as int].deep_view());
        }
        if let Some(item) = &rows[i] {
            push_to(&mut there, item.clone());
        }
        i = i + 1;
    }
    assert(all.take(i as int) =~= all);
    keep(&there, pending)
}

/// A page with the arrivals that stand inside it and are not held yet.
pub open spec fn joined(
    order: PimdirOrder,
    after: Option<CursorView>,
    page: Seq<ItemView>,
    arrivals: Seq<ItemView>,
) -> Seq<ItemView>
    decreases arrivals.len(),
{
    if arrivals.len() == 0 {
        page
    } else {
        let rest = joined(order, after, page, arrivals.drop_last());
        let item = arrivals.last();
        if inside(order, after, item) && seq_at(rest, item.seq) >= rest.len() {
            rest.push(item)
        } else {
            rest
        }
    }
}

/// One page with the overlay folded in.
pub open spec fn overlaid_page(
    order: PimdirOrder,
    after: Option<CursorView>,
    page: Seq<ItemView>,
    edits: Map<i64, Seq<ActionView>>,
    arrivals: Seq<ItemView>,
    limit: nat,
) -> Seq<ItemView> {
    at_most(arranged(order, joined(order, after, kept(edits, page), arrivals)), limit)
}

/// Folds the overlay into one page, `page` being what the committed rows
/// hold of it, read past the limit by the pending removals, and `arrivals`
/// what [`arrived`] found.
pub fn overlaid(
    order: PimdirOrder,
    after: &Option<PimdirCursor>,
    page: &Vec<PimdirItem>,
    pending: &PimdirPending,
    arrivals: &Vec<PimdirItem>,
    limit: usize,
) -> (shown: Vec<PimdirItem>)
    ensures
        shown.deep_view() == overlaid_page(
            order,
            after.deep_view(),
            page.deep_view(),
            pending@.edits,
            arrivals.deep_view(),
            limit as nat,
        ),
{
    let mut items = keep(page, pending);
    let ghost start = items.deep_view();
    let ghost all = arrivals.deep_view();
    let mut i: usize = 0;
    while i < arrivals.len()
        invariant
            i <= arrivals.len(),
            all == arrivals.deep_view(),
            items.deep_view() == joined(order, after.deep_view(), start, all.take(i as int)),
        decreases arrivals.len() - i,
    {
        proof {
            assert(all.take(i + 1).drop_last() =~= all.take(i as int));
            assert(all.take(i + 1).last() == arrivals@[i as int]@);
        }
        let item = &arrivals[i];
        let at = find_seq(&items, item.seq);
        if is_inside(order, after, item) && at >= items.len() {
            push_to(&mut items, item.clone());
        }
        i = i + 1;
    }
    assert(all.take(i as int) =~= all);
    shorten(arrange(order, items), limit)
}

/// One item by its public id with the overlay folded in: as the collection
/// holds it, else as the collection it arrives from does.
pub fn get_item(
    item: Option<PimdirItem>,
    arrival: Option<PimdirItem>,
    pending: &PimdirPending,
) -> (shown: Option<PimdirItem>)
    ensures
        shown.deep_view() == {
            let held = if item is Some {
                item.deep_view()
            } else {
                arrival.deep_view()
            };
            match held {
                Some(held) => folded(held, edits_of(pending@.edits, held.seq)),
                None => None,
            }
        },
{
    let held = match item {
        Some(item) => Some(item),
        None => arrival,
    };
    match held {
        Some(item) => fold(item, pending),
        None => None,
    }
}

/// A collection's live item count with the overlay folded in: less the held
/// items the pending actions take away, more the ones that arrive. `held`
/// is what the committed rows hold of each edited item.
pub fn count_overlaid(
    count: u64,
    held: &Vec<PimdirItem>,
    arrivals: usize,
    pending: &PimdirPending,
) -> (shown: u64)
    requires
        held.len() <= count,
        count + arrivals <= u64::MAX,
    ensures
        shown == count - held.len() + kept(pending@.edits, held.deep_view()).len() + arrivals,
{
    let left = keep(held, pending);
    proof {
        lemma_kept_is_no_longer(pending@.edits, held.deep_view());
    }
    assert(left.len() == left.deep_view().len());
    count - held.len() as u64 + left.len() as u64 + arrivals as u64
}

proof fn lemma_kept_is_no_longer(edits: Map<i64, Seq<ActionView>>, page: Seq<ItemView>)
    ensures
        kept(edits, page).len() <= page.len(),
    decreases page.len(),
{
    if page.len() > 0 {
        lemma_kept_is_no_longer(edits, page.drop_last());
    }
}

/// The creates among queued actions, in order.
pub open spec fn creates_of(actions: Seq<PendingActionView>) -> Seq<PendingActionView>
    decreases actions.len(),
{
    if actions.len() == 0 {
        Seq::empty()
    } else {
        let rest = creates_of(actions.drop_last());
        if actions.last().action is Add {
            rest.push(actions.last())
        } else {
            rest
        }
    }
}

/// The queued creates targeting a collection, reported apart since a create
/// has no public id until the owner applies it.
pub fn pending_creates(actions: &Vec<PimdirPendingAction>) -> (creates: Vec<PimdirPendingAction>)
    ensures
        creates.deep_view() == creates_of(actions.deep_view()),
{
    let mut creates: Vec<PimdirPendingAction> = Vec::new();
    let ghost all = actions.deep_view();
    let mut i: usize = 0;
    assert(creates.deep_view() =~= Seq::empty());
    while i < actions.len()
        invariant
            i <= actions.len(),
            all == actions.deep_view(),
            creates.deep_view() == creates_of(all.take(i as int)),
        decreases actions.len() - i,
    {
        proof {
            assert(all.take(i + 1).drop_last() =~= all.take(i as int));
            assert(all.take(i + 1).last() == actions@[i as int]@);
        }
        if let PimdirAction::Add { .. } = &actions[i].action {
            push_to(&mut creates, actions[i].clone());
        }
        i = i + 1;
    }
    assert(all.take(i as int) =~= all);
    creates
}

/// How many creates are queued.
pub fn count_pending_creates(actions: &Vec<PimdirPendingAction>) -> (count: usize)
    ensures
        count == creates_of(actions.deep_view()).len(),
{
    let creates = pending_creates(actions);
    assert(creates.len() == creates.deep_view().len());
    creates.len()
}

/// With nothing pending an overlay shows the committed page: nothing is
/// hidden, restated or reordered.
pub proof fn lemma_an_idle_queue_shows_the_committed_page(
    order: PimdirOrder,
    after: Option<CursorView>,
    page: Seq<ItemView>,
    limit: nat,
)
    requires
        is_arranged(order, page),
        page.len() <= limit,
    ensures
        overlaid_page(order, after, page, Map::empty(), Seq::empty(), limit) == page,
{
    lemma_all_kept(page);
    lemma_an_arranged_page_stays(order, page);
}

proof fn lemma_all_kept(page: Seq<ItemView>)
    ensures
        kept(Map::empty(), page) == page,
    decreases page.len(),
{
    if page.len() > 0 {
        lemma_all_kept(page.drop_last());
        assert(page =~= page.drop_last().push(page.last()));
    } else {
        assert(page =~= Seq::empty());
    }
}

/// A queued flag set is what a read shows, whatever the flags were: it is
/// absolute.
pub proof fn lemma_a_queued_flag_set_is_shown(
    item: ItemView,
    actions: Seq<ActionView>,
    seq: i64,
    flags: Option<Set<Text>>,
)
    ensures
        folded(item, actions.push(ActionView::SetFlags { seq, flags })) matches Some(shown)
            ==> shown.flags == flags,
{
    let all = actions.push(ActionView::SetFlags { seq, flags });
    assert(all.drop_last() =~= actions);
}

proof fn lemma_a_removed_item_folds_away(item: ItemView, actions: Seq<ActionView>)
    requires
        removes(actions),
    ensures
        folded(item, actions) is None,
{
    let i = choose|i: int| 0 <= i < actions.len() && #[trigger] actions[i] is Remove;
    assert(actions.take(i + 1).drop_last() =~= actions.take(i));
    assert(actions.take(i + 1).last() == actions[i]);
    lemma_gone_stays_gone(item, actions, i + 1);
}

proof fn lemma_folding_keeps_the_id(item: ItemView, actions: Seq<ActionView>)
    ensures
        folded(item, actions) matches Some(shown) ==> shown.seq == item.seq,
    decreases actions.len(),
{
    if actions.len() > 0 {
        lemma_folding_keeps_the_id(item, actions.drop_last());
    }
}

proof fn lemma_kept_ids(edits: Map<i64, Seq<ActionView>>, page: Seq<ItemView>, i: int)
    requires
        0 <= i < kept(edits, page).len(),
    ensures
        !removes(edits_of(edits, kept(edits, page)[i].seq)),
    decreases page.len(),
{
    let rest = kept(edits, page.drop_last());
    if i < rest.len() {
        lemma_kept_ids(edits, page.drop_last(), i);
    } else {
        let item = page.last();
        lemma_folding_keeps_the_id(item, edits_of(edits, item.seq));
        if removes(edits_of(edits, item.seq)) {
            lemma_a_removed_item_folds_away(item, edits_of(edits, item.seq));
        }
    }
}

proof fn lemma_joined_ids(
    order: PimdirOrder,
    after: Option<CursorView>,
    page: Seq<ItemView>,
    arrivals: Seq<ItemView>,
    i: int,
)
    requires
        0 <= i < joined(order, after, page, arrivals).len(),
    ensures
        page.contains(joined(order, after, page, arrivals)[i]) || arrivals.contains(
            joined(order, after, page, arrivals)[i],
        ),
    decreases arrivals.len(),
{
    if arrivals.len() == 0 {
        assert(page.contains(page[i]));
    } else {
        let rest = joined(order, after, page, arrivals.drop_last());
        let all = joined(order, after, page, arrivals);
        if i < rest.len() {
            assert(all[i] == rest[i]);
            lemma_joined_ids(order, after, page, arrivals.drop_last(), i);
            if arrivals.drop_last().contains(rest[i]) {
                let k = arrivals.drop_last().index_of(rest[i]);
                assert(arrivals[k] == rest[i]);
            }
        } else {
            assert(arrivals[arrivals.len() - 1] == all[i]);
        }
    }
}

/// An item a queued remove takes away is on no page, arriving or not.
pub proof fn lemma_a_queued_remove_hides_its_item(
    order: PimdirOrder,
    after: Option<CursorView>,
    page: Seq<ItemView>,
    edits: Map<i64, Seq<ActionView>>,
    arrivals: Seq<Option<ItemView>>,
    limit: nat,
    seq: i64,
    i: int,
)
    requires
        removes(edits_of(edits, seq)),
        0 <= i < overlaid_page(
            order,
            after,
            page,
            edits,
            kept(edits, present(arrivals)),
            limit,
        ).len(),
    ensures
        overlaid_page(order, after, page, edits, kept(edits, present(arrivals)), limit)[i].seq
            != seq,
{
    broadcast use vstd::seq_lib::group_to_multiset_ensures;

    let coming = kept(edits, present(arrivals));
    let own = kept(edits, page);
    let all = joined(order, after, own, coming);
    let sorted = arranged(order, all);
    let shown = overlaid_page(order, after, page, edits, coming, limit);
    lemma_arranging_loses_no_item(order, all);
    let item = shown[i];
    assert(item == sorted[i]);
    assert(sorted.contains(item));
    assert(sorted.to_multiset().count(item) > 0);
    assert(all.to_multiset().count(item) > 0);
    assert(all.contains(item));
    let k = all.index_of(item);
    lemma_joined_ids(order, after, own, coming, k);
    if own.contains(item) {
        lemma_kept_ids(edits, page, own.index_of(item));
    } else {
        lemma_kept_ids(edits, present(arrivals), coming.index_of(item));
    }
}

proof fn lemma_appended(list: Seq<QueuedView>, queued: QueuedView)
    requires
        forall|i: int, j: int|
            0 <= i < j < list.len() ==> (#[trigger] list[i]).action.id <= (
            #[trigger] list[j]).action.id,
    ensures
        appended(list, queued).len() == list.len() + 1,
        forall|i: int, j: int|
            0 <= i < j < list.len() + 1 ==> (#[trigger] appended(list, queued)[i]).action.id <= (
            #[trigger] appended(list, queued)[j]).action.id,
        appended(list, queued).to_multiset() == list.to_multiset().insert(queued),
    decreases list.len(),
{
    broadcast use vstd::seq_lib::group_to_multiset_ensures;

    if list.len() > 0 && queued.action.id < list.last().action.id {
        let rest = list.drop_last();
        assert forall|i: int, j: int| 0 <= i < j < rest.len() implies (
        #[trigger] rest[i]).action.id <= (#[trigger] rest[j]).action.id by {
            assert(rest[i] == list[i] && rest[j] == list[j]);
        }
        lemma_appended(rest, queued);
        let before = appended(rest, queued);
        let all = appended(list, queued);
        assert(list =~= rest.push(list.last()));
        assert forall|i: int| 0 <= i < before.len() implies (#[trigger] before[i]).action.id
            <= list.last().action.id by {
            assert(before.to_multiset().count(before[i]) > 0) by {
                assert(before.contains(before[i]));
            }
            if before[i] != queued {
                assert(rest.to_multiset().count(before[i]) > 0);
                assert(rest.contains(before[i]));
                let k = rest.index_of(before[i]);
                assert(list[k] == before[i]);
                assert(list[k].action.id <= list[list.len() - 1].action.id);
            }
        }
        assert forall|i: int, j: int| 0 <= i < j < all.len() implies (
        #[trigger] all[i]).action.id <= (#[trigger] all[j]).action.id by {
            if j < before.len() {
                assert(all[i] == before[i] && all[j] == before[j]);
            } else {
                assert(all[i] == before[i]);
            }
        }
        assert(all.to_multiset() =~= list.to_multiset().insert(queued));
    } else {
        let all = list.push(queued);
        assert forall|i: int, j: int| 0 <= i < j < all.len() implies (
        #[trigger] all[i]).action.id <= (#[trigger] all[j]).action.id by {
            if j == list.len() {
                if i < list.len() - 1 {
                    assert(list[i].action.id <= list[list.len() - 1].action.id);
                }
            } else {
                assert(list[i].action.id <= list[j].action.id);
            }
        }
        assert(all.to_multiset() =~= list.to_multiset().insert(queued));
    }
}

/// The queue is walked in the order its rows were appended, and walking it
/// loses none.
pub proof fn lemma_the_queue_is_walked_in_append_order(queued: Seq<QueuedView>)
    ensures
        in_append_order(queued).to_multiset() == queued.to_multiset(),
        in_append_order(queued).len() == queued.len(),
        forall|i: int, j: int|
            0 <= i < j < queued.len() ==> (#[trigger] in_append_order(queued)[i]).action.id <= (
            #[trigger] in_append_order(queued)[j]).action.id,
    decreases queued.len(),
{
    broadcast use vstd::seq_lib::group_to_multiset_ensures;

    if queued.len() > 0 {
        let rest = queued.drop_last();
        lemma_the_queue_is_walked_in_append_order(rest);
        lemma_appended(in_append_order(rest), queued.last());
        assert(queued =~= rest.push(queued.last()));
    } else {
        assert(in_append_order(queued) =~= queued);
    }
}

proof fn lemma_walked(queued: Seq<QueuedView>, i: int)
    requires
        0 <= i < queued.len(),
    ensures
        in_append_order(queued).contains(queued[i]),
{
    broadcast use vstd::seq_lib::group_to_multiset_ensures;

    lemma_the_queue_is_walked_in_append_order(queued);
    assert(queued.contains(queued[i]));
    assert(queued.to_multiset().count(queued[i]) > 0);
    assert(in_append_order(queued).to_multiset().count(queued[i]) > 0);
}

/// Whether a queued action of a collection names an item of it to change.
pub open spec fn edits_item(queued: QueuedView, collection: Text, seq: i64) -> bool {
    queued.from == collection && match queued.action.action {
        ActionView::SetFlags { seq: named, .. } => named == seq,
        ActionView::Update { seq: named, .. } => named == seq,
        ActionView::Remove { seq: named } => named == seq,
        _ => false,
    }
}

/// Whether a queued action of a collection moves an item of it elsewhere.
pub open spec fn moves_out(queued: QueuedView, collection: Text, seq: i64) -> bool {
    queued.from == collection && (queued.action.action matches ActionView::Move { seq: named, to }
        && named == seq && to != collection)
}

/// Whether a queued action of another collection brings an item in.
pub open spec fn brings_in(queued: QueuedView, collection: Text, seq: i64) -> bool {
    queued.from != collection && match queued.action.action {
        ActionView::Move { seq: named, to } => named == seq && to == collection,
        ActionView::Copy { seq: named, to } => named == seq && to == collection,
        _ => false,
    }
}

/// Whether an action is what a queued one comes to on an item: itself where
/// it names the item to change, a removal where it moves it elsewhere.
pub open spec fn notes(
    queued: QueuedView,
    collection: Text,
    seq: i64,
    action: ActionView,
) -> bool {
    ||| edits_item(queued, collection, seq) && action == queued.action.action
    ||| moves_out(queued, collection, seq) && action == (ActionView::Remove { seq })
}

proof fn lemma_noted_on(collection: Text, pending: PendingView, queued: QueuedView, seq: i64)
    ensures
        edits_item(queued, collection, seq) ==> edits_of(
            noted(collection, pending, queued).edits,
            seq,
        ) == edits_of(pending.edits, seq).push(queued.action.action),
        moves_out(queued, collection, seq) ==> edits_of(
            noted(collection, pending, queued).edits,
            seq,
        ) == edits_of(pending.edits, seq).push(ActionView::Remove { seq }),
        !edits_item(queued, collection, seq) && !moves_out(queued, collection, seq) ==> edits_of(
            noted(collection, pending, queued).edits,
            seq,
        ) == edits_of(pending.edits, seq),
{
}

/// A queued change of a collection's item is noted on it, and one that
/// moves the item elsewhere as its removal.
pub proof fn lemma_a_queued_change_is_noted_on_its_item(
    collection: Text,
    queued: Seq<QueuedView>,
    seq: i64,
    k: int,
    action: ActionView,
)
    requires
        0 <= k < queued.len(),
        notes(queued[k], collection, seq, action),
    ensures
        edits_of(all_noted(collection, queued).edits, seq).contains(action),
    decreases queued.len(),
{
    let rest = queued.drop_last();
    let before = edits_of(all_noted(collection, rest).edits, seq);
    let edits = edits_of(all_noted(collection, queued).edits, seq);
    lemma_noted_on(collection, all_noted(collection, rest), queued.last(), seq);
    if k < rest.len() {
        assert(rest[k] == queued[k]);
        lemma_a_queued_change_is_noted_on_its_item(collection, rest, seq, k, action);
        let i = before.index_of(action);
        assert(edits[i] == action);
    } else {
        assert(edits[before.len() as int] == action);
    }
}

/// Nothing is noted on an item but what its collection's queue changes
/// about it, and the last change of the queue is noted last.
pub proof fn lemma_nothing_else_is_noted(
    collection: Text,
    queued: Seq<QueuedView>,
    seq: i64,
    i: int,
)
    requires
        0 <= i < edits_of(all_noted(collection, queued).edits, seq).len(),
    ensures
        exists|k: int|
            0 <= k < queued.len() && #[trigger] notes(
                queued[k],
                collection,
                seq,
                edits_of(all_noted(collection, queued).edits, seq)[i],
            ),
        edits_item(queued.last(), collection, seq) ==> edits_of(
            all_noted(collection, queued).edits,
            seq,
        ).last() == queued.last().action.action,
    decreases queued.len(),
{
    if queued.len() > 0 {
        let rest = queued.drop_last();
        let before = edits_of(all_noted(collection, rest).edits, seq);
        let edits = edits_of(all_noted(collection, queued).edits, seq);
        lemma_noted_on(collection, all_noted(collection, rest), queued.last(), seq);
        if i < before.len() {
            lemma_nothing_else_is_noted(collection, rest, seq, i);
            let k = choose|k: int|
                0 <= k < rest.len() && #[trigger] notes(rest[k], collection, seq, before[i]);
            assert(notes(queued[k], collection, seq, edits[i]));
        } else {
            assert(notes(queued[queued.len() - 1], collection, seq, edits[i]));
        }
    } else {
        assert(!Map::<i64, Seq<ActionView>>::empty().dom().contains(seq));
    }
}

/// A queued move out of a collection takes its item off every page of it,
/// as a queued remove does, until the queue is drained.
pub proof fn lemma_a_queued_move_hides_its_item(
    collection: Text,
    queued: Seq<QueuedView>,
    k: int,
    seq: i64,
    order: PimdirOrder,
    after: Option<CursorView>,
    page: Seq<ItemView>,
    arrivals: Seq<Option<ItemView>>,
    limit: nat,
    i: int,
)
    requires
        0 <= k < queued.len(),
        moves_out(queued[k], collection, seq) || (edits_item(queued[k], collection, seq)
            && queued[k].action.action is Remove),
    ensures
        ({
            let edits = all_noted(collection, in_append_order(queued)).edits;
            let shown = overlaid_page(
                order,
                after,
                page,
                edits,
                kept(edits, present(arrivals)),
                limit,
            );
            &&& removes(edits_of(edits, seq))
            &&& 0 <= i < shown.len() ==> shown[i].seq != seq
        }),
{
    let list = in_append_order(queued);
    let edits = all_noted(collection, list).edits;
    lemma_walked(queued, k);
    let m = list.index_of(queued[k]);
    assert(list[m] == queued[k]);
    let gone = if moves_out(queued[k], collection, seq) {
        ActionView::Remove { seq }
    } else {
        queued[k].action.action
    };
    lemma_a_queued_change_is_noted_on_its_item(collection, list, seq, m, gone);
    assert(edits_of(edits, seq).contains(gone));
    let at = edits_of(edits, seq).index_of(gone);
    assert(edits_of(edits, seq)[at] is Remove);
    let shown = overlaid_page(order, after, page, edits, kept(edits, present(arrivals)), limit);
    if 0 <= i < shown.len() {
        lemma_a_queued_remove_hides_its_item(
            order,
            after,
            page,
            edits,
            arrivals,
            limit,
            seq,
            i,
        );
    }
}

/// What a read shows of an item is the item: its queued actions change its
/// flags and its body at most, and take it away exactly where one of them
/// removes it.
pub proof fn lemma_a_fold_changes_flags_and_body_at_most(item: ItemView, actions: Seq<ActionView>)
    ensures
        folded(item, actions) is None <==> removes(actions),
        folded(item, actions) matches Some(shown) ==> {
            &&& shown.seq == item.seq
            &&& shown.link_id == item.link_id
            &&& shown.sort_key == item.sort_key
            &&& shown.summary == item.summary
            &&& shown.retention == item.retention
            &&& (forall|i: int| 0 <= i < actions.len() ==> !(#[trigger] actions[i] is SetFlags))
                ==> shown.flags == item.flags
            &&& (forall|i: int| 0 <= i < actions.len() ==> !(#[trigger] actions[i] is Update))
                ==> shown.object == item.object && shown.level == item.level
        },
    decreases actions.len(),
{
    if removes(actions) {
        lemma_a_removed_item_folds_away(item, actions);
    }
    if actions.len() > 0 {
        let rest = actions.drop_last();
        lemma_a_fold_changes_flags_and_body_at_most(item, rest);
        assert(actions[actions.len() - 1] == actions.last());
        assert forall|i: int| 0 <= i < rest.len() implies #[trigger] rest[i] == actions[i] by {
        }
        if folded(item, actions) is None && !(actions.last() is Remove) {
            let i = choose|i: int| 0 <= i < rest.len() && #[trigger] rest[i] is Remove;
            assert(actions[i] is Remove);
        }
    }
}

/// Of the flag sets queued on an item the last is shown, and of the bodies
/// the last, as one that is held whole.
pub proof fn lemma_a_fold_shows_the_last_of_each(item: ItemView, actions: Seq<ActionView>, i: int)
    requires
        0 <= i < actions.len(),
    ensures
        folded(item, actions) matches Some(shown) ==> {
            &&& actions[i] matches ActionView::SetFlags { flags, .. } ==> ((forall|j: int|
                i < j < actions.len() ==> !(#[trigger] actions[j] is SetFlags)) ==> shown.flags
                == flags)
            &&& actions[i] matches ActionView::Update { object, .. } ==> ((forall|j: int|
                i < j < actions.len() ==> !(#[trigger] actions[j] is Update)) ==> shown.object
                == Some(object) && shown.level == PimdirLevel::Full)
        },
    decreases actions.len(),
{
    let rest = actions.drop_last();
    if i < rest.len() && folded(item, actions) is Some {
        lemma_a_fold_shows_the_last_of_each(item, rest, i);
        assert(rest[i] == actions[i]);
        assert(actions[actions.len() - 1] == actions.last());
        assert forall|j: int| 0 <= j < rest.len() implies #[trigger] rest[j] == actions[j] by {
        }
    }
}

/// A page keeps every item its queue does not take away, as the queue leaves
/// it, and holds no other.
pub proof fn lemma_a_page_keeps_what_is_not_taken_away(
    edits: Map<i64, Seq<ActionView>>,
    page: Seq<ItemView>,
)
    ensures
        forall|i: int|
            0 <= i < page.len() && !removes(edits_of(edits, (#[trigger] page[i]).seq)) ==> kept(
                edits,
                page,
            ).contains(folded(page[i], edits_of(edits, page[i].seq))->0),
        forall|i: int|
            0 <= i < kept(edits, page).len() ==> exists|j: int|
                0 <= j < page.len() && folded(
                    page[j],
                    edits_of(edits, (#[trigger] page[j]).seq),
                ) == Some(#[trigger] kept(edits, page)[i]),
        kept(edits, page).len() == page.filter(
            |item: ItemView| !removes(edits_of(edits, item.seq)),
        ).len(),
    decreases page.len(),
{
    reveal(Seq::filter);
    if page.len() > 0 {
        let rest = page.drop_last();
        let fewer = kept(edits, rest);
        let all = kept(edits, page);
        lemma_a_page_keeps_what_is_not_taken_away(edits, rest);
        assert(page[page.len() - 1] == page.last());
        lemma_a_fold_changes_flags_and_body_at_most(
            page.last(),
            edits_of(edits, page.last().seq),
        );
        assert forall|i: int|
            0 <= i < page.len() && !removes(
                edits_of(edits, (#[trigger] page[i]).seq),
            ) implies all.contains(folded(page[i], edits_of(edits, page[i].seq))->0) by {
            if i < rest.len() {
                assert(rest[i] == page[i]);
                let k = fewer.index_of(folded(page[i], edits_of(edits, page[i].seq))->0);
                assert(all[k] == fewer[k]);
            } else {
                assert(all[fewer.len() as int] == folded(
                    page[i],
                    edits_of(edits, page[i].seq),
                )->0);
            }
        }
        assert forall|i: int| 0 <= i < all.len() implies exists|j: int|
            0 <= j < page.len() && folded(page[j], edits_of(edits, (#[trigger] page[j]).seq))
                == Some(#[trigger] all[i]) by {
            if i < fewer.len() {
                assert(all[i] == fewer[i]);
                let j = choose|j: int|
                    0 <= j < rest.len() && folded(
                        rest[j],
                        edits_of(edits, (#[trigger] rest[j]).seq),
                    ) == Some(fewer[i]);
                assert(page[j] == rest[j]);
            }
        }
    }
}

/// Whether a page starts past a place: behind the cursor's key in the order
/// of keys, and in the kind's order behind its sort key, or at it behind its
/// public id, the other way round where the newest come first.
pub proof fn lemma_a_page_starts_past_its_cursor(
    order: PimdirOrder,
    after: CursorView,
    item: ItemView,
)
    ensures
        inside(order, None, item),
        order == PimdirOrder::ByLink ==> inside(order, Some(after), item) == text_lt(
            after.key,
            item.link_id,
        ),
        order == PimdirOrder::Ascending ==> inside(order, Some(after), item) == (text_lt(
            after.key,
            item.sort_key,
        ) || after.key == item.sort_key && after.seq < item.seq),
        order == PimdirOrder::Descending ==> inside(order, Some(after), item) == (text_lt(
            item.sort_key,
            after.key,
        ) || item.sort_key == after.key && item.seq < after.seq),
        item.sort_key == after.key && item.seq == after.seq && order != PimdirOrder::ByLink
            ==> !inside(order, Some(after), item),
{
    lemma_text_irreflexive(after.key);
}

proof fn lemma_seq_found(page: Seq<ItemView>, seq: i64)
    ensures
        0 <= seq_at(page, seq) <= page.len(),
        seq_at(page, seq) < page.len() ==> page[seq_at(page, seq)].seq == seq,
        seq_at(page, seq) >= page.len() ==> forall|i: int|
            0 <= i < page.len() ==> (#[trigger] page[i]).seq != seq,
    decreases page.len(),
{
    if page.len() > 0 && page[0].seq != seq {
        let rest = page.drop_first();
        lemma_seq_found(rest, seq);
        assert forall|i: int|
            seq_at(page, seq) >= page.len() && 0 <= i < page.len() implies (
        #[trigger] page[i]).seq != seq by {
            if i > 0 {
                assert(rest[i - 1] == page[i]);
            }
        }
    }
}

proof fn lemma_joined_grows(
    order: PimdirOrder,
    after: Option<CursorView>,
    page: Seq<ItemView>,
    arrivals: Seq<ItemView>,
)
    ensures
        joined(order, after, page, arrivals).len() >= page.len(),
        forall|i: int|
            0 <= i < page.len() ==> #[trigger] joined(order, after, page, arrivals)[i] == page[i],
        forall|k: int|
            0 <= k < arrivals.len() && inside(order, after, #[trigger] arrivals[k]) ==> exists|i: int|
                0 <= i < joined(order, after, page, arrivals).len() && (#[trigger] joined(
                    order,
                    after,
                    page,
                    arrivals,
                )[i]).seq == arrivals[k].seq,
    decreases arrivals.len(),
{
    if arrivals.len() > 0 {
        let rest = arrivals.drop_last();
        lemma_joined_grows(order, after, page, rest);
        let before = joined(order, after, page, rest);
        let all = joined(order, after, page, arrivals);
        let item = arrivals.last();
        lemma_seq_found(before, item.seq);
        assert forall|k: int|
            0 <= k < arrivals.len() && inside(
                order,
                after,
                #[trigger] arrivals[k],
            ) implies exists|i: int|
            0 <= i < all.len() && (#[trigger] all[i]).seq == arrivals[k].seq by {
            if k < rest.len() {
                assert(rest[k] == arrivals[k]);
                let i = choose|i: int|
                    0 <= i < before.len() && (#[trigger] before[i]).seq == rest[k].seq;
                assert(all[i] == before[i]);
            } else if seq_at(before, item.seq) >= before.len() {
                assert(all[before.len() as int] == item);
            } else {
                let i = seq_at(before, item.seq);
                assert(all[i] == before[i]);
            }
        }
    }
}

/// An overlaid page is in its order and within its limit; where the limit
/// leaves room it shows every item the queue leaves in the collection, and
/// every arrival past the cursor.
pub proof fn lemma_an_overlaid_page_shows_what_the_queue_leaves(
    order: PimdirOrder,
    after: Option<CursorView>,
    page: Seq<ItemView>,
    edits: Map<i64, Seq<ActionView>>,
    arrivals: Seq<ItemView>,
    limit: nat,
)
    ensures
        ({
            let shown = overlaid_page(order, after, page, edits, arrivals, limit);
            &&& shown.len() <= limit
            &&& forall|i: int, j: int|
                0 <= i < j < shown.len() ==> match order {
                    PimdirOrder::ByLink => !text_lt(
                        (#[trigger] shown[j]).link_id,
                        (#[trigger] shown[i]).link_id,
                    ),
                    PimdirOrder::Ascending => !text_lt(shown[j].sort_key, shown[i].sort_key) && !(
                    shown[j].sort_key == shown[i].sort_key && shown[j].seq < shown[i].seq),
                    PimdirOrder::Descending => !text_lt(shown[i].sort_key, shown[j].sort_key) && !(
                    shown[i].sort_key == shown[j].sort_key && shown[i].seq < shown[j].seq),
                }
            &&& page.len() + arrivals.len() <= limit ==> {
                &&& forall|i: int|
                    0 <= i < page.len() && !removes(
                        edits_of(edits, (#[trigger] page[i]).seq),
                    ) ==> shown.contains(folded(page[i], edits_of(edits, page[i].seq))->0)
                &&& forall|k: int|
                    0 <= k < arrivals.len() && inside(order, after, #[trigger] arrivals[k])
                        ==> exists|i: int|
                        0 <= i < shown.len() && (#[trigger] shown[i]).seq == arrivals[k].seq
            }
        }),
{
    broadcast use vstd::seq_lib::group_to_multiset_ensures;

    let own = kept(edits, page);
    let all = joined(order, after, own, arrivals);
    let sorted = arranged(order, all);
    let shown = overlaid_page(order, after, page, edits, arrivals, limit);
    lemma_arranging_loses_no_item(order, all);
    lemma_a_page_keeps_what_is_not_taken_away(edits, page);
    lemma_kept_is_no_longer(edits, page);
    lemma_joined_grows(order, after, own, arrivals);
    lemma_joined_bounded(order, after, own, arrivals);
    assert forall|i: int, j: int| 0 <= i < j < shown.len() implies match order {
        PimdirOrder::ByLink => !text_lt(
            (#[trigger] shown[j]).link_id,
            (#[trigger] shown[i]).link_id,
        ),
        PimdirOrder::Ascending => !text_lt(shown[j].sort_key, shown[i].sort_key) && !(
        shown[j].sort_key == shown[i].sort_key && shown[j].seq < shown[i].seq),
        PimdirOrder::Descending => !text_lt(shown[i].sort_key, shown[j].sort_key) && !(
        shown[i].sort_key == shown[j].sort_key && shown[i].seq < shown[j].seq),
    } by {
        assert(shown[i] == sorted[i] && shown[j] == sorted[j]);
    }
    if page.len() + arrivals.len() <= limit {
        assert(shown == sorted);
        assert forall|i: int|
            0 <= i < page.len() && !removes(
                edits_of(edits, (#[trigger] page[i]).seq),
            ) implies shown.contains(folded(page[i], edits_of(edits, page[i].seq))->0) by {
            let item = folded(page[i], edits_of(edits, page[i].seq))->0;
            let k = own.index_of(item);
            assert(all[k] == item);
            assert(all.to_multiset().count(item) > 0);
            assert(sorted.to_multiset().count(item) > 0);
        }
        assert forall|k: int|
            0 <= k < arrivals.len() && inside(
                order,
                after,
                #[trigger] arrivals[k],
            ) implies exists|i: int|
            0 <= i < shown.len() && (#[trigger] shown[i]).seq == arrivals[k].seq by {
            let i = choose|i: int|
                0 <= i < all.len() && (#[trigger] all[i]).seq == arrivals[k].seq;
            assert(all.contains(all[i]));
            assert(all.to_multiset().count(all[i]) > 0);
            assert(sorted.to_multiset().count(all[i]) > 0);
            assert(sorted.contains(all[i]));
            let m = sorted.index_of(all[i]);
            assert(shown[m].seq == arrivals[k].seq);
        }
    }
}

proof fn lemma_joined_bounded(
    order: PimdirOrder,
    after: Option<CursorView>,
    page: Seq<ItemView>,
    arrivals: Seq<ItemView>,
)
    ensures
        joined(order, after, page, arrivals).len() <= page.len() + arrivals.len(),
    decreases arrivals.len(),
{
    if arrivals.len() > 0 {
        lemma_joined_bounded(order, after, page, arrivals.drop_last());
    }
}

/// The creates among queued actions are the adds, each once and in order.
pub proof fn lemma_the_creates_are_the_adds(actions: Seq<PendingActionView>)
    ensures
        creates_of(actions) == actions.filter(|queued: PendingActionView| queued.action is Add),
    decreases actions.len(),
{
    reveal(Seq::filter);
    if actions.len() > 0 {
        lemma_the_creates_are_the_adds(actions.drop_last());
    }
}

proof fn lemma_link_found(page: Seq<ItemView>, link: Text)
    ensures
        0 <= link_at(page, link) <= page.len(),
        link_at(page, link) < page.len() ==> page[link_at(page, link)].link_id == link,
        forall|i: int|
            0 <= i < page.len() && (#[trigger] page[i]).link_id == link ==> link_at(page, link)
                <= i,
    decreases page.len(),
{
    if page.len() > 0 && page[0].link_id != link {
        let rest = page.drop_first();
        lemma_link_found(rest, link);
        assert forall|i: int|
            0 <= i < page.len() && (#[trigger] page[i]).link_id == link implies link_at(page, link)
            <= i by {
            assert(rest[i - 1] == page[i]);
        }
    }
}

/// A summary row joins the item of its key, whose summary it then is, and
/// changes nothing else on the page.
pub proof fn lemma_a_summary_joins_its_item(page: Seq<ItemView>, row: SummaryRowView, i: int)
    requires
        0 <= i < page.len(),
        forall|j: int, k: int|
            0 <= j < k < page.len() ==> (#[trigger] page[j]).link_id != (#[trigger] page[k]).link_id,
    ensures
        summary_joined(page, row).len() == page.len(),
        page[i].link_id == row.link_id ==> summary_joined(page, row)[i].summary == Some(
            row.summary,
        ),
        page[i].link_id != row.link_id ==> summary_joined(page, row)[i] == page[i],
        summary_joined(page, row)[i] == (ItemView {
            summary: summary_joined(page, row)[i].summary,
            ..page[i]
        }),
{
    lemma_link_found(page, row.link_id);
    let at = link_at(page, row.link_id);
    if page[i].link_id == row.link_id && at < i {
        assert(page[at].link_id != page[i].link_id);
    }
}

/// An address row joins the summary of the item of its key, under its role,
/// and changes nothing else on the page.
pub proof fn lemma_an_address_joins_its_item(page: Seq<ItemView>, row: AddressRowView, i: int)
    requires
        0 <= i < page.len(),
        forall|j: int, k: int|
            0 <= j < k < page.len() ==> (#[trigger] page[j]).link_id != (#[trigger] page[k]).link_id,
    ensures
        address_joined(page, row).len() == page.len(),
        page[i].link_id != row.link_id ==> address_joined(page, row)[i] == page[i],
        page[i].link_id == row.link_id && page[i].summary is Some && role_of(row.role) is Some
            ==> address_joined(page, row)[i].summary == Some(
            with_person(
                page[i].summary->0,
                role_of(row.role)->0,
                AddressView { address: row.address, name: row.name },
            ),
        ),
        address_joined(page, row)[i] == (ItemView {
            summary: address_joined(page, row)[i].summary,
            ..page[i]
        }),
{
    lemma_link_found(page, row.link_id);
    let at = link_at(page, row.link_id);
    if page[i].link_id == row.link_id && at < i {
        assert(page[at].link_id != page[i].link_id);
    }
}

/// Rows of several tables merge by item: each public id stands once.
pub proof fn lemma_tables_merge_by_item(rows: Seq<ItemView>, i: int, j: int)
    requires
        0 <= i < j < merged(rows).len(),
    ensures
        merged(rows)[i].seq != merged(rows)[j].seq,
    decreases rows.len(),
{
    let rest = rows.drop_last();
    let before = merged(rest);
    lemma_seq_found(before, rows.last().seq);
    if j < before.len() {
        lemma_tables_merge_by_item(rest, i, j);
    }
}

/// No row is lost in the merge: its item is there, with a summary where the
/// row has one.
pub proof fn lemma_a_merge_loses_no_row(rows: Seq<ItemView>, k: int) -> (i: int)
    requires
        0 <= k < rows.len(),
    ensures
        0 <= i < merged(rows).len(),
        merged(rows)[i].seq == rows[k].seq,
        rows[k].summary is Some ==> merged(rows)[i].summary is Some,
    decreases rows.len(),
{
    let rest = rows.drop_last();
    let before = merged(rest);
    lemma_seq_found(before, rows.last().seq);
    if k < rest.len() {
        assert(rest[k] == rows[k]);
        lemma_a_merge_loses_no_row(rest, k)
    } else {
        seq_at(before, rows.last().seq)
    }
}

/// A merged item is one of the rows, with a summary of the same item's rows
/// where it has one.
pub proof fn lemma_a_merged_item_is_a_row(rows: Seq<ItemView>, i: int) -> (k: (int, int))
    requires
        0 <= i < merged(rows).len(),
    ensures
        0 <= k.0 < rows.len(),
        merged(rows)[i] == (ItemView { summary: merged(rows)[i].summary, ..rows[k.0] }),
        0 <= k.1 < rows.len(),
        rows[k.1].seq == merged(rows)[i].seq,
        merged(rows)[i].summary is Some ==> rows[k.1].summary == merged(rows)[i].summary,
    decreases rows.len(),
{
    let rest = rows.drop_last();
    let before = merged(rest);
    let row = rows.last();
    lemma_seq_found(before, row.seq);
    assert(rows[rows.len() - 1] == row);
    if i < before.len() {
        let (a, b) = lemma_a_merged_item_is_a_row(rest, i);
        assert(rest[a] == rows[a] && rest[b] == rows[b]);
        if before[i].summary is None && seq_at(before, row.seq) == i {
            (a, rows.len() - 1)
        } else {
            (a, b)
        }
    } else {
        (rows.len() - 1, rows.len() - 1)
    }
}

/// A listed row tells its item: no column is lost or stands for another.
pub proof fn lemma_a_listed_row_tells_its_item(row: ListedRowView)
    ensures
        ({
            let item = item_listed(row);
            &&& item.seq == row.seq
            &&& item.link_id == row.link_id
            &&& item.sort_key == row.sort_key
            &&& item.object == row.object
            &&& item.summary is None
            &&& (row.level == 0 ==> item.level == PimdirLevel::Probed)
            &&& (row.level == 1 ==> item.level == PimdirLevel::Meta)
            &&& (row.level == 2 ==> item.level == PimdirLevel::Full)
            &&& (row.flags is None ==> item.flags is None)
            &&& (item.retention is Some <==> row.retained is Some)
            &&& (row.retained matches Some(retained) ==> item.retention->0.at == retained.at
                && item.retention->0.by == retained.by && (retained.size is None
                <==> item.retention->0.size is None) && (retained.size matches Some(size) ==> (size
                >= 0 ==> item.retention->0.size == Some(size as u64))))
        }),
{
}

/// An item as several tables answered of it is the item they agree on,
/// with the summary of the first that has one; it is not there where one
/// of them lacks it.
pub proof fn lemma_a_committed_item_has_the_first_summary(rows: Seq<Option<ItemView>>, at: int)
    requires
        rows.len() > 0,
        0 <= at <= rows.len(),
        forall|i: int| 0 <= i < rows.len() ==> #[trigger] rows[i] is Some,
        forall|i: int| 0 <= i < at ==> (#[trigger] rows[i])->0.summary is None,
        at < rows.len() ==> rows[at]->0.summary is Some,
    ensures
        committed(rows) matches Some(item) && item.seq == rows[0]->0.seq && item.link_id
            == rows[0]->0.link_id && item.flags == rows[0]->0.flags && item.object
            == rows[0]->0.object && item.summary == (if at < rows.len() {
            rows[at]->0.summary
        } else {
            None
        }),
        committed(rows.push(None)) is None,
{
    lemma_the_first_summary(rows, at);
    let lacking = rows.push(None);
    assert(lacking[rows.len() as int] is None);
}

proof fn lemma_the_first_summary(rows: Seq<Option<ItemView>>, at: int)
    requires
        0 <= at <= rows.len(),
        forall|i: int| 0 <= i < rows.len() ==> #[trigger] rows[i] is Some,
        forall|i: int| 0 <= i < at ==> (#[trigger] rows[i])->0.summary is None,
        at < rows.len() ==> rows[at]->0.summary is Some,
    ensures
        first_summary(rows) == (if at < rows.len() {
            rows[at]->0.summary
        } else {
            None
        }),
    decreases rows.len(),
{
    if at > 0 {
        let rest = rows.drop_first();
        assert(rows[0] is Some && rows[0]->0.summary is None);
        assert forall|i: int| 0 <= i < rest.len() implies #[trigger] rest[i] is Some by {
            assert(rest[i] == rows[i + 1]);
        }
        assert forall|i: int| 0 <= i < at - 1 implies (#[trigger] rest[i])->0.summary is None by {
            assert(rest[i] == rows[i + 1]);
        }
        lemma_the_first_summary(rest, at - 1);
    }
}

proof fn lemma_no_item_of_the_seq(page: Seq<ItemView>, seq: i64)
    ensures
        seq_at(page, seq) >= page.len() ==> forall|i: int|
            0 <= i < page.len() ==> (#[trigger] page[i]).seq != seq,
    decreases page.len(),
{
    if page.len() > 0 && page[0].seq != seq {
        let rest = page.drop_first();
        lemma_no_item_of_the_seq(rest, seq);
        if seq_at(page, seq) >= page.len() {
            assert forall|i: int| 0 <= i < page.len() implies (#[trigger] page[i]).seq != seq by {
                if i > 0 {
                    assert(rest[i - 1] == page[i]);
                }
            }
        }
    }
}

/// What joins a page is an arrival that stands inside it, and one the page
/// does not hold already.
pub proof fn lemma_an_arrival_joins_its_page_once(
    order: PimdirOrder,
    after: Option<CursorView>,
    page: Seq<ItemView>,
    arrivals: Seq<ItemView>,
    i: int,
    j: int,
)
    requires
        page.len() <= i < joined(order, after, page, arrivals).len(),
        0 <= j < i,
    ensures
        exists|k: int|
            0 <= k < arrivals.len() && #[trigger] arrivals[k] == joined(
                order,
                after,
                page,
                arrivals,
            )[i],
        inside(order, after, joined(order, after, page, arrivals)[i]),
        joined(order, after, page, arrivals)[j].seq != joined(order, after, page, arrivals)[i].seq,
    decreases arrivals.len(),
{
    let fewer = arrivals.drop_last();
    let rest = joined(order, after, page, fewer);
    let all = joined(order, after, page, arrivals);
    let last = arrivals.len() - 1;
    lemma_joined_grows(order, after, page, fewer);
    if i < rest.len() {
        lemma_an_arrival_joins_its_page_once(order, after, page, fewer, i, j);
        let k = choose|k: int| 0 <= k < fewer.len() && #[trigger] fewer[k] == rest[i];
        assert(arrivals[k] == fewer[k]);
    } else {
        assert(arrivals[last] == all[i]);
        lemma_no_item_of_the_seq(rest, arrivals.last().seq);
        assert(rest[j] == all[j]);
    }
}

} // verus!
