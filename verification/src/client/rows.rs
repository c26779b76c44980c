//! # Rows
//!
//! The rows of the store's tables as plain columns, and what they say of
//! the model: an item, a binding, a summary with the people it names. What
//! a row is read back as is what was written to it.

use crate::codec::{
    flags_from_json, flags_of, flags_to_json, ids_from_json, ids_of, ids_to_json, json_list,
    json_strings, level_from_int, level_to_int,
};
use crate::hub::{BindingView, HubItemView, PimdirBinding, PimdirHubItem, PimdirSourceId};
use crate::list::push_to;
use crate::object::PimdirHash;
use crate::placement::{
    BaseView, PimdirBase, PimdirHandle, PimdirLevel, PimdirLinkId, PimdirSortKey,
};
use crate::scan::{chars_of, find, find_char, spells, trim, trimmed};
use crate::summary::calendar::{
    EventSummaryView, JournalSummaryView, PimdirEventSummary, PimdirJournalSummary,
    PimdirTaskSummary, PimdirTime, TaskSummaryView, TimeView,
};
use crate::summary::contact::{ContactSummaryView, PimdirContactSummary};
use crate::summary::mail::{MailSummaryView, PimdirMailSummary};
use crate::summary::{
    as_borrowed, AddressView, PimdirAddress, PimdirAddressRole, PimdirSummary, SummaryView,
};
use crate::text::{text_same, Text};
use crate::text_map::{in_order, TextMap};
use vstd::prelude::*;
use vstd::slice::*;
use vstd::string::*;

verus! {

/// An item's own columns.
#[derive(Debug, PartialEq, Eq)]
pub struct PimdirItemRow {
    /// The item's key.
    pub link_id: String,
    /// The flag set as JSON, `None` while unknown.
    pub flags: Option<String>,
    /// The body's hash.
    pub object: Option<String>,
    /// The ordering key.
    pub sort_key: String,
    /// The detail tier.
    pub level: i64,
    /// Whether the item is deleted.
    pub deleted: i64,
    /// Whether a cross-source conflict is unresolved.
    pub conflicted: i64,
    /// The diverging body of that conflict.
    pub conflict_object: Option<String>,
}

/// What a [`PimdirItemRow`] says, by value.
#[verifier::ext_equal]
pub struct ItemRowView {
    pub link_id: Text,
    pub flags: Option<Text>,
    pub object: Option<Text>,
    pub sort_key: Text,
    pub level: i64,
    pub deleted: i64,
    pub conflicted: i64,
    pub conflict_object: Option<Text>,
}

impl View for PimdirItemRow {
    type V = ItemRowView;

    open spec fn view(&self) -> ItemRowView {
        ItemRowView {
            link_id: self.link_id@,
            flags: self.flags.deep_view(),
            object: self.object.deep_view(),
            sort_key: self.sort_key@,
            level: self.level,
            deleted: self.deleted,
            conflicted: self.conflicted,
            conflict_object: self.conflict_object.deep_view(),
        }
    }
}

impl DeepView for PimdirItemRow {
    type V = ItemRowView;

    open spec fn deep_view(&self) -> ItemRowView {
        self@
    }
}

impl Clone for PimdirItemRow {
    fn clone(&self) -> (copy: Self)
        ensures
            copy@ == self@,
    {
        PimdirItemRow {
            link_id: self.link_id.clone(),
            flags: self.flags.clone(),
            object: self.object.clone(),
            sort_key: self.sort_key.clone(),
            level: self.level,
            deleted: self.deleted,
            conflicted: self.conflicted,
            conflict_object: self.conflict_object.clone(),
        }
    }
}

/// A binding's columns.
#[derive(Debug, PartialEq, Eq)]
pub struct PimdirBindingRow {
    /// The item's key.
    pub link_id: String,
    /// The source it is bound on.
    pub source: String,
    /// The item's handle there.
    pub handle: String,
    /// The flags last synced, as JSON.
    pub base_flags: Option<String>,
    /// The body last synced.
    pub base_object: Option<String>,
    /// The revision last synced.
    pub base_revision: Option<String>,
    /// Whether anything was synced yet.
    pub base_present: i64,
    /// Whether the source's own sync is in conflict.
    pub conflicted: i64,
    /// The remote revision of that conflict.
    pub conflict_revision: Option<String>,
    /// The remote body of that conflict.
    pub conflict_object: Option<String>,
    /// The shared body last reconciled against.
    pub shared_object: Option<String>,
}

/// What a [`PimdirBindingRow`] says, by value.
#[verifier::ext_equal]
pub struct BindingRowView {
    pub link_id: Text,
    pub source: Text,
    pub handle: Text,
    pub base_flags: Option<Text>,
    pub base_object: Option<Text>,
    pub base_revision: Option<Text>,
    pub base_present: i64,
    pub conflicted: i64,
    pub conflict_revision: Option<Text>,
    pub conflict_object: Option<Text>,
    pub shared_object: Option<Text>,
}

impl View for PimdirBindingRow {
    type V = BindingRowView;

    open spec fn view(&self) -> BindingRowView {
        BindingRowView {
            link_id: self.link_id@,
            source: self.source@,
            handle: self.handle@,
            base_flags: self.base_flags.deep_view(),
            base_object: self.base_object.deep_view(),
            base_revision: self.base_revision.deep_view(),
            base_present: self.base_present,
            conflicted: self.conflicted,
            conflict_revision: self.conflict_revision.deep_view(),
            conflict_object: self.conflict_object.deep_view(),
            shared_object: self.shared_object.deep_view(),
        }
    }
}

impl DeepView for PimdirBindingRow {
    type V = BindingRowView;

    open spec fn deep_view(&self) -> BindingRowView {
        self@
    }
}

impl Clone for PimdirBindingRow {
    fn clone(&self) -> (copy: Self)
        ensures
            copy@ == self@,
    {
        PimdirBindingRow {
            link_id: self.link_id.clone(),
            source: self.source.clone(),
            handle: self.handle.clone(),
            base_flags: self.base_flags.clone(),
            base_object: self.base_object.clone(),
            base_revision: self.base_revision.clone(),
            base_present: self.base_present,
            conflicted: self.conflicted,
            conflict_revision: self.conflict_revision.clone(),
            conflict_object: self.conflict_object.clone(),
            shared_object: self.shared_object.clone(),
        }
    }
}

/// One column as the database holds it.
#[derive(Debug, PartialEq, Eq)]
pub enum PimdirValue {
    /// `NULL`.
    Null,
    /// An integer.
    Integer(i64),
    /// A text.
    Text(String),
    /// Anything else.
    Other,
}

/// What a [`PimdirValue`] says, by value.
#[verifier::ext_equal]
pub enum ValueView {
    Null,
    Integer(i64),
    Text(Text),
    Other,
}

impl View for PimdirValue {
    type V = ValueView;

    open spec fn view(&self) -> ValueView {
        match *self {
            PimdirValue::Null => ValueView::Null,
            PimdirValue::Integer(a) => ValueView::Integer(a),
            PimdirValue::Text(a) => ValueView::Text(a@),
            PimdirValue::Other => ValueView::Other,
        }
    }
}

impl DeepView for PimdirValue {
    type V = ValueView;

    open spec fn deep_view(&self) -> ValueView {
        self@
    }
}

impl Clone for PimdirValue {
    fn clone(&self) -> (copy: Self)
        ensures
            copy@ == self@,
    {
        match self {
            PimdirValue::Null => PimdirValue::Null,
            PimdirValue::Integer(a) => PimdirValue::Integer(*a),
            PimdirValue::Text(a) => PimdirValue::Text(a.clone()),
            PimdirValue::Other => PimdirValue::Other,
        }
    }
}

/// A text, by value, where there is one.
pub open spec fn to_flags(json: Option<Text>) -> Option<Set<Text>> {
    match json {
        Some(json) => flags_of(json_strings(json)),
        None => None,
    }
}

/// Whether flags are a set that can be listed.
pub open spec fn can_list(flags: Option<Set<Text>>) -> bool {
    flags matches Some(set) ==> in_order(set).to_set() == set
}

/// The flag set as its column.
pub open spec fn flags_column(flags: Option<Set<Text>>) -> Option<Text> {
    match flags {
        Some(flags) => Some(json_list(in_order(flags))),
        None => None,
    }
}

/// The level a column holds.
pub open spec fn to_level(value: i64) -> PimdirLevel {
    if value == 1 {
        PimdirLevel::Meta
    } else if value == 2 {
        PimdirLevel::Full
    } else {
        PimdirLevel::Probed
    }
}

/// A truth as its column.
pub open spec fn bit(yes: bool) -> i64 {
    if yes {
        1
    } else {
        0
    }
}

/// A truth as its column.
pub fn bit_of(yes: bool) -> (value: i64)
    ensures
        value == bit(yes),
{
    if yes {
        1
    } else {
        0
    }
}

/// A hash of a text, where there is one.
pub fn to_hash(text: Option<String>) -> (hash: Option<PimdirHash>)
    ensures
        hash.deep_view() == text.deep_view(),
{
    match text {
        Some(text) => Some(PimdirHash(text)),
        None => None,
    }
}

/// The text of a hash, where there is one.
pub fn hash_text(hash: &Option<PimdirHash>) -> (text: Option<String>)
    ensures
        text.deep_view() == hash.deep_view(),
{
    match hash {
        Some(hash) => Some(hash.0.clone()),
        None => None,
    }
}

/// The item a row holds, without the summary and the bindings that stand
/// in other tables.
pub open spec fn item_of_row(row: ItemRowView) -> HubItemView {
    HubItemView {
        flags: to_flags(row.flags),
        object: row.object,
        summary: None,
        sort_key: row.sort_key,
        level: to_level(row.level),
        deleted: row.deleted != 0,
        conflicted: row.conflicted != 0,
        conflict_object: row.conflict_object,
        sources: Map::empty(),
    }
}

/// An item's own columns.
pub open spec fn row_of_item(link: Text, item: HubItemView) -> ItemRowView {
    ItemRowView {
        link_id: link,
        flags: flags_column(item.flags),
        object: item.object,
        sort_key: item.sort_key,
        level: item.level.rung() as i64,
        deleted: bit(item.deleted),
        conflicted: bit(item.conflicted),
        conflict_object: item.conflict_object,
    }
}

/// An item without its summary and its bindings.
pub open spec fn own_columns(item: HubItemView) -> HubItemView {
    HubItemView { summary: None, sources: Map::empty(), ..item }
}

/// Reads an item from its row. The row of an item reads as that item, its
/// summary and bindings aside: no column is lost.
pub fn item_from_row(row: PimdirItemRow) -> (item: (PimdirLinkId, PimdirHubItem))
    ensures
        item.0@ == row@.link_id,
        item.1@ == item_of_row(row@),
        forall|link: Text, other: HubItemView|
            can_list(other.flags) && row@ == #[trigger] row_of_item(link, other) ==> item.1@
                == own_columns(other),
{
    let flags = flags_from_json(as_borrowed(&row.flags));
    let item = PimdirHubItem {
        flags,
        object: to_hash(row.object),
        summary: None,
        sort_key: PimdirSortKey(row.sort_key),
        level: level_from_int(row.level),
        deleted: row.deleted != 0,
        conflicted: row.conflicted != 0,
        conflict_object: to_hash(row.conflict_object),
        sources: TextMap::new(),
    };
    proof {
        assert(item@.sources =~= Map::empty());
        assert forall|link: Text, other: HubItemView|
            can_list(other.flags) && row@ == #[trigger] row_of_item(link, other) implies item@
            == own_columns(other) by {
            if let Some(set) = other.flags {
                assert(in_order(set).to_set() == set);
            }
            assert(item@ =~= own_columns(other));
        }
    }
    (PimdirLinkId(row.link_id), item)
}

/// An item's own columns, for an insert or an update.
pub fn item_columns(link: &str, item: &PimdirHubItem) -> (row: PimdirItemRow)
    ensures
        row@ == row_of_item(link@, item@),
{
    PimdirItemRow {
        link_id: link.to_owned(),
        flags: flags_to_json(&item.flags),
        object: hash_text(&item.object),
        sort_key: item.sort_key.0.clone(),
        level: level_to_int(item.level),
        deleted: bit_of(item.deleted),
        conflicted: bit_of(item.conflicted),
        conflict_object: hash_text(&item.conflict_object),
    }
}

/// The binding a row holds. Either witness tells that something was
/// synced: the column is the fact, and the value columns stay one for a row
/// written before the column existed.
pub open spec fn binding_of_row(row: BindingRowView) -> BindingView {
    let conflicted = row.conflicted != 0;
    BindingView {
        handle: row.handle,
        base: if row.base_present != 0 || row.base_flags is Some || row.base_object is Some
            || row.base_revision is Some {
            Some(
                BaseView {
                    flags: to_flags(row.base_flags),
                    revision: row.base_revision,
                    object: row.base_object,
                },
            )
        } else {
            None
        },
        conflicted,
        conflict_revision: if conflicted {
            row.conflict_revision
        } else {
            None
        },
        conflict_object: if conflicted {
            row.conflict_object
        } else {
            None
        },
        shared_object: row.shared_object,
    }
}

/// A binding's columns: what it is stuck on stands there while it is
/// conflicted.
pub open spec fn row_of_binding(link: Text, source: Text, binding: BindingView) -> BindingRowView {
    BindingRowView {
        link_id: link,
        source,
        handle: binding.handle,
        base_flags: match binding.base {
            Some(base) => flags_column(base.flags),
            None => None,
        },
        base_object: match binding.base {
            Some(base) => base.object,
            None => None,
        },
        base_revision: match binding.base {
            Some(base) => base.revision,
            None => None,
        },
        base_present: bit(binding.base is Some),
        conflicted: bit(binding.conflicted),
        conflict_revision: if binding.conflicted {
            binding.conflict_revision
        } else {
            None
        },
        conflict_object: stuck_on(binding),
        shared_object: binding.shared_object,
    }
}

/// The diverging body a binding is stuck on: the hash while conflicted.
pub open spec fn stuck_on(binding: BindingView) -> Option<Text> {
    if binding.conflicted {
        binding.conflict_object
    } else {
        None
    }
}

/// Whether a binding says nothing its columns cannot hold: what it is stuck
/// on is stated while it is conflicted, and its flags can be listed.
pub open spec fn binding_fits(binding: BindingView) -> bool {
    &&& !binding.conflicted ==> binding.conflict_revision is None && binding.conflict_object is None
    &&& binding.base matches Some(base) ==> can_list(base.flags)
}

/// Reads a binding from its row. The row of a binding reads as that
/// binding: no column is lost.
pub fn binding_from_row(row: PimdirBindingRow) -> (binding: (
    PimdirLinkId,
    PimdirSourceId,
    PimdirBinding,
))
    ensures
        binding.0@ == row@.link_id,
        binding.1@ == row@.source,
        binding.2@ == binding_of_row(row@),
        forall|link: Text, source: Text, other: BindingView|
            binding_fits(other) && row@ == #[trigger] row_of_binding(link, source, other)
                ==> binding.2@ == other,
{
    let flags = flags_from_json(as_borrowed(&row.base_flags));
    let present = row.base_present != 0 || row.base_flags.is_some() || row.base_object.is_some()
        || row.base_revision.is_some();
    let base = if present {
        Some(PimdirBase { flags, revision: row.base_revision, object: to_hash(row.base_object) })
    } else {
        None
    };
    let conflicted = row.conflicted != 0;
    let binding = PimdirBinding {
        handle: PimdirHandle(row.handle),
        base,
        conflicted,
        conflict_revision: if conflicted {
            row.conflict_revision
        } else {
            None
        },
        conflict_object: if conflicted {
            to_hash(row.conflict_object)
        } else {
            None
        },
        shared_object: to_hash(row.shared_object),
    };
    proof {
        assert(binding@ =~= binding_of_row(row@));
        assert forall|link: Text, source: Text, other: BindingView|
            binding_fits(other) && row@ == #[trigger] row_of_binding(
                link,
                source,
                other,
            ) implies binding@ == other by {
            if let Some(base) = other.base {
                if let Some(set) = base.flags {
                    assert(in_order(set).to_set() == set);
                }
            }
            assert(binding@ =~= other);
        }
    }
    (PimdirLinkId(row.link_id), PimdirSourceId(row.source), binding)
}

/// A binding's columns, for an insert or an update.
pub fn binding_columns(link: &str, source: &str, binding: &PimdirBinding) -> (row: PimdirBindingRow)
    ensures
        row@ == row_of_binding(link@, source@, binding@),
{
    let (base_flags, base_object, base_revision) = match &binding.base {
        Some(base) => (flags_to_json(&base.flags), hash_text(&base.object), base.revision.clone()),
        None => (None, None, None),
    };
    PimdirBindingRow {
        link_id: link.to_owned(),
        source: source.to_owned(),
        handle: binding.handle.0.clone(),
        base_flags,
        base_object,
        base_revision,
        base_present: bit_of(binding.base.is_some()),
        conflicted: bit_of(binding.conflicted),
        conflict_revision: if binding.conflicted {
            binding.conflict_revision.clone()
        } else {
            None
        },
        conflict_object: if binding.conflicted {
            hash_text(&binding.conflict_object)
        } else {
            None
        },
        shared_object: hash_text(&binding.shared_object),
    }
}

/// One of the five summary tables.
#[derive(Clone, Copy, Debug, PartialEq, Eq, Structural)]
pub enum PimdirSummaryTable {
    /// Of messages.
    Mail,
    /// Of cards.
    Contact,
    /// Of events.
    Event,
    /// Of tasks.
    Task,
    /// Of journal entries.
    Journal,
}

/// The table a summary is written to.
pub open spec fn table_of(summary: SummaryView) -> PimdirSummaryTable {
    match summary {
        SummaryView::Mail(_) => PimdirSummaryTable::Mail,
        SummaryView::Contact(_) => PimdirSummaryTable::Contact,
        SummaryView::Event(_) => PimdirSummaryTable::Event,
        SummaryView::Task(_) => PimdirSummaryTable::Task,
        SummaryView::Journal(_) => PimdirSummaryTable::Journal,
    }
}

/// The tables a kind may hold rows in.
pub open spec fn tables_for(kind: Text) -> Seq<PimdirSummaryTable> {
    let media = trim(kind.take(find_char(kind, ';')));
    if media == "message/rfc822"@ {
        seq![PimdirSummaryTable::Mail]
    } else if media == "text/vcard"@ {
        seq![PimdirSummaryTable::Contact]
    } else if media == "text/calendar"@ {
        seq![PimdirSummaryTable::Event, PimdirSummaryTable::Task, PimdirSummaryTable::Journal]
    } else {
        seq![
            PimdirSummaryTable::Mail,
            PimdirSummaryTable::Contact,
            PimdirSummaryTable::Event,
            PimdirSummaryTable::Task,
            PimdirSummaryTable::Journal,
        ]
    }
}

/// The summary tables a collection's kind may hold rows in; every table for
/// a collection whose kind was never declared.
pub fn tables_of(kind: &str) -> (tables: Vec<PimdirSummaryTable>)
    ensures
        tables@ == tables_for(kind@),
{
    let chars = chars_of(kind);
    let chars = chars.as_slice();
    let end = find(chars, ';');
    let bare = slice_subrange(chars, 0, end);
    assert(bare@ =~= chars@.take(end as int));
    let media = trimmed(bare);
    let mut tables: Vec<PimdirSummaryTable> = Vec::new();
    if spells(media, "message/rfc822") {
        tables.push(PimdirSummaryTable::Mail);
    } else if spells(media, "text/vcard") {
        tables.push(PimdirSummaryTable::Contact);
    } else if spells(media, "text/calendar") {
        tables.push(PimdirSummaryTable::Event);
        tables.push(PimdirSummaryTable::Task);
        tables.push(PimdirSummaryTable::Journal);
    } else {
        tables.push(PimdirSummaryTable::Mail);
        tables.push(PimdirSummaryTable::Contact);
        tables.push(PimdirSummaryTable::Event);
        tables.push(PimdirSummaryTable::Task);
        tables.push(PimdirSummaryTable::Journal);
    }
    assert(tables@ =~= tables_for(kind@));
    tables
}

/// Whether a column holds a text, an integer where `number`, or `NULL`.
pub open spec fn column_fits(row: Seq<ValueView>, at: int, number: bool) -> bool {
    0 <= at < row.len() && match row[at] {
        ValueView::Null => true,
        ValueView::Text(_) => !number,
        ValueView::Integer(_) => number,
        ValueView::Other => false,
    }
}

/// The text of a column, `None` for what is no text.
pub open spec fn text_at(row: Seq<ValueView>, at: int) -> Option<Text> {
    if 0 <= at < row.len() {
        match row[at] {
            ValueView::Text(text) => Some(text),
            _ => None,
        }
    } else {
        None
    }
}

/// The number of a column, `None` for what is no number.
pub open spec fn number_at(row: Seq<ValueView>, at: int) -> Option<i64> {
    if 0 <= at < row.len() {
        match row[at] {
            ValueView::Integer(n) => Some(n),
            _ => None,
        }
    } else {
        None
    }
}

/// The truth of a column.
pub open spec fn flag_at(row: Seq<ValueView>, at: int) -> Option<bool> {
    match number_at(row, at) {
        Some(n) => Some(n != 0),
        None => None,
    }
}

/// The time of three columns: a value, its zone and its type.
pub open spec fn time_at(row: Seq<ValueView>, at: int) -> Option<TimeView> {
    match text_at(row, at) {
        Some(value) => Some(
            TimeView {
                value,
                tzid: text_at(row, at + 1),
                date: text_at(row, at + 2) == Some("date"@),
            },
        ),
        None => None,
    }
}

/// The first of the columns that does not fit, each with whether it holds a
/// number, in the order they are read.
pub open spec fn first_misfit(row: Seq<ValueView>, at: int, columns: Seq<(int, bool)>) -> Option<int>
    decreases columns.len(),
{
    if columns.len() == 0 {
        None
    } else if !column_fits(row, at + columns[0].0, columns[0].1) {
        Some(at + columns[0].0)
    } else {
        first_misfit(row, at, columns.drop_first())
    }
}

impl PimdirSummaryTable {
    /// The column that is never `NULL` where a row is there.
    pub open spec fn witness(self) -> int {
        match self {
            PimdirSummaryTable::Mail => 2,
            _ => 1,
        }
    }

    /// The columns read behind the witness, each with whether it holds a
    /// number, in order.
    pub open spec fn columns(self) -> Seq<(int, bool)> {
        match self {
            PimdirSummaryTable::Mail => seq![
                (0, false),
                (1, false),
                (3, false),
                (4, false),
                (5, false),
                (6, true),
                (7, true),
            ],
            PimdirSummaryTable::Contact => seq![(0, false), (2, false), (3, false)],
            PimdirSummaryTable::Event => seq![
                (0, false),
                (2, false),
                (3, false),
                (6, false),
                (7, true),
                (8, false),
            ],
            PimdirSummaryTable::Task => seq![
                (0, false),
                (2, false),
                (5, false),
                (8, false),
                (9, false),
                (10, true),
                (11, true),
                (12, false),
            ],
            PimdirSummaryTable::Journal => seq![(0, false), (2, false)],
        }
    }

    /// The summary its columns state, no address attached.
    pub open spec fn summary_at(self, row: Seq<ValueView>, at: int) -> SummaryView {
        let title = match text_at(row, at + self.witness()) {
            Some(title) => title,
            None => Text::empty(),
        };
        let none = Seq::<AddressView>::empty();
        match self {
            PimdirSummaryTable::Mail => SummaryView::Mail(
                MailSummaryView {
                    message_id: text_at(row, at),
                    in_reply_to: match text_at(row, at + 1) {
                        Some(json) => ids_of(json_strings(json)),
                        None => Seq::empty(),
                    },
                    subject: title,
                    sender: text_at(row, at + 3),
                    sender_name: text_at(row, at + 4),
                    date: text_at(row, at + 5),
                    size: match number_at(row, at + 6) {
                        Some(size) => Some(
                            if size < 0 {
                                0u64
                            } else {
                                size as u64
                            },
                        ),
                        None => None,
                    },
                    attachment: flag_at(row, at + 7),
                    from: none,
                    to: none,
                    cc: none,
                    bcc: none,
                },
            ),
            PimdirSummaryTable::Contact => SummaryView::Contact(
                ContactSummaryView {
                    uid: text_at(row, at),
                    full_name: title,
                    kind: text_at(row, at + 2),
                    org: text_at(row, at + 3),
                    emails: none,
                },
            ),
            PimdirSummaryTable::Event => SummaryView::Event(
                EventSummaryView {
                    uid: text_at(row, at),
                    summary: title,
                    location: text_at(row, at + 2),
                    dtstart: time_at(row, at + 3),
                    dtend: text_at(row, at + 6),
                    recurring: flag_at(row, at + 7),
                    until: text_at(row, at + 8),
                    organizer: None,
                    attendees: none,
                },
            ),
            PimdirSummaryTable::Task => SummaryView::Task(
                TaskSummaryView {
                    uid: text_at(row, at),
                    summary: title,
                    dtstart: time_at(row, at + 2),
                    due: time_at(row, at + 5),
                    status: text_at(row, at + 8),
                    completed: text_at(row, at + 9),
                    percent: number_at(row, at + 10),
                    recurring: flag_at(row, at + 11),
                    until: text_at(row, at + 12),
                    organizer: None,
                    attendees: none,
                },
            ),
            PimdirSummaryTable::Journal => SummaryView::Journal(
                JournalSummaryView {
                    uid: text_at(row, at),
                    summary: title,
                    dtstart: time_at(row, at + 2),
                    organizer: None,
                    attendees: none,
                },
            ),
        }
    }

    /// What a row whose summary columns start at a place states: the
    /// summary, nothing where an outer join found none, or the column that
    /// holds what it cannot.
    pub open spec fn row_states(self, row: Seq<ValueView>, at: int) -> Result<
        Option<SummaryView>,
        int,
    > {
        let witness = at + self.witness();
        if !column_fits(row, witness, false) {
            Err(witness)
        } else if text_at(row, witness) is None {
            Ok(None)
        } else {
            match first_misfit(row, at, self.columns()) {
                Some(column) => Err(column),
                None => Ok(Some(self.summary_at(row, at))),
            }
        }
    }
}

/// A summary without the people it names.
pub open spec fn without_people(summary: SummaryView) -> SummaryView {
    let none = Seq::<AddressView>::empty();
    match summary {
        SummaryView::Mail(mail) => SummaryView::Mail(
            MailSummaryView { from: none, to: none, cc: none, bcc: none, ..mail },
        ),
        SummaryView::Contact(contact) => SummaryView::Contact(
            ContactSummaryView { emails: none, ..contact },
        ),
        SummaryView::Event(event) => SummaryView::Event(
            EventSummaryView { organizer: None, attendees: none, ..event },
        ),
        SummaryView::Task(task) => SummaryView::Task(
            TaskSummaryView { organizer: None, attendees: none, ..task },
        ),
        SummaryView::Journal(journal) => SummaryView::Journal(
            JournalSummaryView { organizer: None, attendees: none, ..journal },
        ),
    }
}

/// An optional text as its column.
pub open spec fn text_value(text: Option<Text>) -> ValueView {
    match text {
        Some(text) => ValueView::Text(text),
        None => ValueView::Null,
    }
}

/// An optional number as its column.
pub open spec fn number_value(n: Option<i64>) -> ValueView {
    match n {
        Some(n) => ValueView::Integer(n),
        None => ValueView::Null,
    }
}

/// An optional truth as its column.
pub open spec fn flag_value(yes: Option<bool>) -> ValueView {
    match yes {
        Some(yes) => ValueView::Integer(bit(yes)),
        None => ValueView::Null,
    }
}

/// An optional time as its three columns.
pub open spec fn time_values(time: Option<TimeView>) -> Seq<ValueView> {
    match time {
        Some(time) => seq![
            ValueView::Text(time.value),
            text_value(time.tzid),
            ValueView::Text(time.value_kind()),
        ],
        None => seq![ValueView::Null, ValueView::Null, ValueView::Null],
    }
}

/// An optional size as its column.
pub open spec fn size_value(size: Option<u64>) -> ValueView {
    match size {
        Some(size) => ValueView::Integer(size as i64),
        None => ValueView::Null,
    }
}

/// A summary's columns, in the order they are read.
pub open spec fn columns_of(summary: SummaryView) -> Seq<ValueView> {
    match summary {
        SummaryView::Mail(mail) => seq![
            text_value(mail.message_id),
            ValueView::Text(json_list(mail.in_reply_to)),
            ValueView::Text(mail.subject),
            text_value(mail.sender),
            text_value(mail.sender_name),
            text_value(mail.date),
            size_value(mail.size),
            flag_value(mail.attachment),
        ],
        SummaryView::Contact(contact) => seq![
            text_value(contact.uid),
            ValueView::Text(contact.full_name),
            text_value(contact.kind),
            text_value(contact.org),
        ],
        SummaryView::Event(event) => seq![
            text_value(event.uid),
            ValueView::Text(event.summary),
            text_value(event.location),
        ] + time_values(event.dtstart) + seq![
            text_value(event.dtend),
            flag_value(event.recurring),
            text_value(event.until),
        ],
        SummaryView::Task(task) => seq![text_value(task.uid), ValueView::Text(task.summary)]
            + time_values(task.dtstart) + time_values(task.due) + seq![
            text_value(task.status),
            text_value(task.completed),
            number_value(task.percent),
            flag_value(task.recurring),
            text_value(task.until),
        ],
        SummaryView::Journal(journal) => seq![
            text_value(journal.uid),
            ValueView::Text(journal.summary),
        ] + time_values(journal.dtstart),
    }
}

/// Whether a summary says nothing its columns cannot hold: a message's size
/// is a number a column holds.
pub open spec fn summary_fits(summary: SummaryView) -> bool {
    summary matches SummaryView::Mail(mail) ==> (mail.size matches Some(size) ==> size <= i64::MAX)
}

/// A result of reading a summary, by value.
pub open spec fn read_view(result: Result<Option<PimdirSummary>, usize>) -> Result<
    Option<SummaryView>,
    int,
> {
    match result {
        Ok(summary) => Ok(summary.deep_view()),
        Err(column) => Err(column as int),
    }
}

/// The text of a column.
fn text_of_column(row: &Vec<PimdirValue>, at: usize) -> (text: Option<String>)
    ensures
        text.deep_view() == text_at(row.deep_view(), at as int),
{
    if at < row.len() {
        assert(row.deep_view()[at as int] == row@[at as int]@);
        match &row[at] {
            PimdirValue::Text(text) => Some(text.clone()),
            _ => None,
        }
    } else {
        None
    }
}

/// The number of a column.
fn number_of_column(row: &Vec<PimdirValue>, at: usize) -> (n: Option<i64>)
    ensures
        n == number_at(row.deep_view(), at as int),
{
    if at < row.len() {
        assert(row.deep_view()[at as int] == row@[at as int]@);
        match &row[at] {
            PimdirValue::Integer(n) => Some(*n),
            _ => None,
        }
    } else {
        None
    }
}

/// The truth of a column.
fn flag_of_column(row: &Vec<PimdirValue>, at: usize) -> (yes: Option<bool>)
    ensures
        yes == flag_at(row.deep_view(), at as int),
{
    match number_of_column(row, at) {
        Some(n) => Some(n != 0),
        None => None,
    }
}

/// The time of three columns.
fn time_of_columns(row: &Vec<PimdirValue>, at: usize) -> (time: Option<PimdirTime>)
    requires
        at + 2 <= usize::MAX,
    ensures
        time.deep_view() == time_at(row.deep_view(), at as int),
{
    match text_of_column(row, at) {
        Some(value) => {
            let date = match text_of_column(row, at + 2) {
                Some(kind) => text_same(kind.as_str(), "date"),
                None => false,
            };
            Some(PimdirTime { value, tzid: text_of_column(row, at + 1), date })
        },
        None => None,
    }
}

/// Whether a column holds what it can.
fn fits_column(row: &Vec<PimdirValue>, at: usize, number: bool) -> (fits: bool)
    ensures
        fits == column_fits(row.deep_view(), at as int, number),
{
    if at < row.len() {
        assert(row.deep_view()[at as int] == row@[at as int]@);
        match &row[at] {
            PimdirValue::Null => true,
            PimdirValue::Text(_) => !number,
            PimdirValue::Integer(_) => number,
            PimdirValue::Other => false,
        }
    } else {
        false
    }
}

/// Columns, by value.
pub open spec fn places(columns: Seq<(usize, bool)>) -> Seq<(int, bool)> {
    columns.map_values(|column: (usize, bool)| (column.0 as int, column.1))
}

/// The first of the columns that does not fit.
fn misfit(row: &Vec<PimdirValue>, at: usize, columns: &Vec<(usize, bool)>) -> (column: Option<usize>)
    requires
        at + 12 <= usize::MAX,
        forall|i: int| 0 <= i < columns@.len() ==> (#[trigger] columns@[i]).0 <= 12,
    ensures
        match column {
            Some(column) => first_misfit(row.deep_view(), at as int, places(columns@)) == Some(
                column as int,
            ),
            None => first_misfit(row.deep_view(), at as int, places(columns@)) is None,
        },
{
    let ghost all = places(columns@);
    let mut i: usize = 0;
    assert(all.skip(0) =~= all);
    while i < columns.len()
        invariant
            i <= columns.len(),
            at + 12 <= usize::MAX,
            all == places(columns@),
            forall|i: int| 0 <= i < columns@.len() ==> (#[trigger] columns@[i]).0 <= 12,
            first_misfit(row.deep_view(), at as int, all) == first_misfit(
                row.deep_view(),
                at as int,
                all.skip(i as int),
            ),
        decreases columns.len() - i,
    {
        proof {
            assert(all.skip(i as int)[0] == all[i as int]);
            assert(all.skip(i as int).drop_first() =~= all.skip(i + 1));
        }
        let (offset, number) = columns[i];
        if !fits_column(row, at + offset, number) {
            return Some(at + offset);
        }
        i = i + 1;
    }
    None
}

impl PimdirSummaryTable {
    /// The table a summary variant is written to.
    pub fn of(summary: &PimdirSummary) -> (table: Self)
        ensures
            table == table_of(summary@),
    {
        match summary {
            PimdirSummary::Mail(_) => PimdirSummaryTable::Mail,
            PimdirSummary::Contact(_) => PimdirSummaryTable::Contact,
            PimdirSummary::Event(_) => PimdirSummaryTable::Event,
            PimdirSummary::Task(_) => PimdirSummaryTable::Task,
            PimdirSummary::Journal(_) => PimdirSummaryTable::Journal,
        }
    }

    /// Whether a row may leave its item: a component rewritten as another
    /// deletes its row, a mail or contact row never leaves its item, the
    /// collection's kind being fixed.
    pub fn deletes(self) -> (yes: bool)
        ensures
            yes == !(self is Mail || self is Contact),
    {
        match self {
            PimdirSummaryTable::Mail | PimdirSummaryTable::Contact => false,
            PimdirSummaryTable::Event | PimdirSummaryTable::Task | PimdirSummaryTable::Journal =>
                true,
        }
    }

    /// The columns read behind the witness.
    fn column_list(self) -> (columns: Vec<(usize, bool)>)
        ensures
            places(columns@) == self.columns(),
            forall|i: int| 0 <= i < columns@.len() ==> (#[trigger] columns@[i]).0 <= 12,
    {
        let columns: Vec<(usize, bool)> = match self {
            PimdirSummaryTable::Mail => vec![
                (0, false),
                (1, false),
                (3, false),
                (4, false),
                (5, false),
                (6, true),
                (7, true),
            ],
            PimdirSummaryTable::Contact => vec![(0, false), (2, false), (3, false)],
            PimdirSummaryTable::Event => vec![
                (0, false),
                (2, false),
                (3, false),
                (6, false),
                (7, true),
                (8, false),
            ],
            PimdirSummaryTable::Task => vec![
                (0, false),
                (2, false),
                (5, false),
                (8, false),
                (9, false),
                (10, true),
                (11, true),
                (12, false),
            ],
            PimdirSummaryTable::Journal => vec![(0, false), (2, false)],
        };
        assert(places(columns@) =~= self.columns());
        columns
    }

    /// Maps a row whose summary columns start at `at`, addresses empty: the
    /// summary, `None` for an item an outer join found no row of, or the
    /// first column holding what it cannot. The columns of a summary read
    /// as that summary, the people it names aside.
    pub fn read_row(self, row: &Vec<PimdirValue>, at: usize) -> (summary: Result<
        Option<PimdirSummary>,
        usize,
    >)
        requires
            at + 14 <= usize::MAX,
        ensures
            read_view(summary) == self.row_states(row.deep_view(), at as int),
            forall|other: SummaryView|
                summary_fits(other) && self == table_of(other) && at <= row@.len()
                    && row.deep_view().skip(at as int) == #[trigger] columns_of(other)
                    ==> read_view(summary) == Ok::<Option<SummaryView>, int>(
                    Some(without_people(other)),
                ),
    {
        let witness: usize = match self {
            PimdirSummaryTable::Mail => at + 2,
            _ => at + 1,
        };
        let ghost all = row.deep_view();
        let ghost start = at as int;
        if !fits_column(row, witness, false) {
            proof {
                lemma_columns_read_back(self, all, start);
            }
            return Err(witness);
        }
        let title = match text_of_column(row, witness) {
            Some(title) => title,
            None => {
                proof {
                    lemma_columns_read_back(self, all, start);
                }
                return Ok(None);
            },
        };
        if let Some(column) = misfit(row, at, &self.column_list()) {
            proof {
                lemma_columns_read_back(self, all, start);
            }
            return Err(column);
        }
        let summary = match self {
            PimdirSummaryTable::Mail => {
                let in_reply_to = match text_of_column(row, at + 1) {
                    Some(ids) => ids_from_json(ids.as_str()),
                    None => Vec::new(),
                };
                let mail = PimdirMailSummary {
                    message_id: text_of_column(row, at),
                    in_reply_to,
                    subject: title,
                    sender: text_of_column(row, at + 3),
                    sender_name: text_of_column(row, at + 4),
                    date: text_of_column(row, at + 5),
                    size: match number_of_column(row, at + 6) {
                        Some(size) => Some(
                            if size < 0 {
                                0
                            } else {
                                size as u64
                            },
                        ),
                        None => None,
                    },
                    attachment: flag_of_column(row, at + 7),
                    from: Vec::new(),
                    to: Vec::new(),
                    cc: Vec::new(),
                    bcc: Vec::new(),
                };
                proof {
                    assert(SummaryView::Mail(mail@) =~= self.summary_at(all, start));
                    assert forall|other: SummaryView|
                        summary_fits(other) && self == table_of(other) && at <= row@.len()
                            && all.skip(start) == #[trigger] columns_of(
                            other,
                        ) implies SummaryView::Mail(mail@) == without_people(other) by {
                        let said = other->Mail_0;
                        lemma_mail_reads_back(all, start, said);
                        assert(mail@.in_reply_to == said.in_reply_to);
                        assert(SummaryView::Mail(mail@) =~= without_people(other));
                    }
                }
                PimdirSummary::Mail(mail)
            },
            PimdirSummaryTable::Contact => PimdirSummary::Contact(
                PimdirContactSummary {
                    uid: text_of_column(row, at),
                    full_name: title,
                    kind: text_of_column(row, at + 2),
                    org: text_of_column(row, at + 3),
                    emails: Vec::new(),
                },
            ),
            PimdirSummaryTable::Event => PimdirSummary::Event(
                PimdirEventSummary {
                    uid: text_of_column(row, at),
                    summary: title,
                    location: text_of_column(row, at + 2),
                    dtstart: time_of_columns(row, at + 3),
                    dtend: text_of_column(row, at + 6),
                    recurring: flag_of_column(row, at + 7),
                    until: text_of_column(row, at + 8),
                    organizer: None,
                    attendees: Vec::new(),
                },
            ),
            PimdirSummaryTable::Task => PimdirSummary::Task(
                PimdirTaskSummary {
                    uid: text_of_column(row, at),
                    summary: title,
                    dtstart: time_of_columns(row, at + 2),
                    due: time_of_columns(row, at + 5),
                    status: text_of_column(row, at + 8),
                    completed: text_of_column(row, at + 9),
                    percent: number_of_column(row, at + 10),
                    recurring: flag_of_column(row, at + 11),
                    until: text_of_column(row, at + 12),
                    organizer: None,
                    attendees: Vec::new(),
                },
            ),
            PimdirSummaryTable::Journal => PimdirSummary::Journal(
                PimdirJournalSummary {
                    uid: text_of_column(row, at),
                    summary: title,
                    dtstart: time_of_columns(row, at + 2),
                    organizer: None,
                    attendees: Vec::new(),
                },
            ),
        };
        proof {
            assert(summary@ =~= self.summary_at(all, start));
            lemma_columns_read_back(self, all, start);
        }
        Ok(Some(summary))
    }
}

/// The columns of a message hold what it says.
proof fn lemma_mail_reads_back(row: Seq<ValueView>, at: int, mail: MailSummaryView)
    requires
        0 <= at <= row.len(),
        row.skip(at) == columns_of(SummaryView::Mail(mail)),
        summary_fits(SummaryView::Mail(mail)),
    ensures
        text_at(row, at) == mail.message_id,
        text_at(row, at + 1) == Some(json_list(mail.in_reply_to)),
        text_at(row, at + 2) == Some(mail.subject),
        text_at(row, at + 3) == mail.sender,
        text_at(row, at + 4) == mail.sender_name,
        text_at(row, at + 5) == mail.date,
        number_at(row, at + 6) == match mail.size {
            Some(size) => Some(size as i64),
            None => None,
        },
        flag_at(row, at + 7) == mail.attachment,
        first_misfit(row, at, PimdirSummaryTable::Mail.columns()) is None,
        column_fits(row, at + 2, false),
{
    let s = row.skip(at);
    assert(s.len() == 8);
    assert(row[at] == s[0] && row[at + 1] == s[1] && row[at + 2] == s[2] && row[at + 3] == s[3]);
    assert(row[at + 4] == s[4] && row[at + 5] == s[5] && row[at + 6] == s[6] && row[at + 7] == s[7]);
    lemma_no_misfit(row, at, PimdirSummaryTable::Mail.columns());
}

/// Columns that fit, every one, have no misfit.
proof fn lemma_no_misfit(row: Seq<ValueView>, at: int, columns: Seq<(int, bool)>)
    requires
        forall|i: int|
            0 <= i < columns.len() ==> column_fits(
                row,
                at + (#[trigger] columns[i]).0,
                columns[i].1,
            ),
    ensures
        first_misfit(row, at, columns) is None,
    decreases columns.len(),
{
    if columns.len() > 0 {
        assert(column_fits(row, at + columns[0].0, columns[0].1));
        let rest = columns.drop_first();
        assert forall|i: int| 0 <= i < rest.len() implies column_fits(
            row,
            at + (#[trigger] rest[i]).0,
            rest[i].1,
        ) by {
            assert(rest[i] == columns[i + 1]);
        }
        lemma_no_misfit(row, at, rest);
    }
}

proof fn lemma_time_reads_back(row: Seq<ValueView>, at: int, time: Option<TimeView>)
    requires
        0 <= at,
        at + 3 <= row.len(),
        row[at] == time_values(time)[0],
        row[at + 1] == time_values(time)[1],
        row[at + 2] == time_values(time)[2],
    ensures
        time_at(row, at) == time,
        column_fits(row, at, false),
{
    reveal_strlit("date");
    reveal_strlit("date-time");
    assert("date"@.len() == 4 && "date-time"@.len() == 9);
}

/// The columns of a summary state that summary, the people it names aside;
/// of a message, but for the ids it replies to, which stand encoded.
proof fn lemma_columns_read_back(table: PimdirSummaryTable, row: Seq<ValueView>, at: int)
    requires
        0 <= at,
    ensures
        forall|other: SummaryView|
            summary_fits(other) && table == table_of(other) && at <= row.len() && row.skip(at)
                == #[trigger] columns_of(other) ==> {
                &&& column_fits(row, at + table.witness(), false)
                &&& text_at(row, at + table.witness()) is Some
                &&& first_misfit(row, at, table.columns()) is None
                &&& !(other is Mail) ==> table.summary_at(row, at) == without_people(other)
            },
{
    assert forall|other: SummaryView|
        summary_fits(other) && table == table_of(other) && at <= row.len() && row.skip(at)
            == #[trigger] columns_of(other) implies {
        &&& column_fits(row, at + table.witness(), false)
        &&& text_at(row, at + table.witness()) is Some
        &&& first_misfit(row, at, table.columns()) is None
        &&& !(other is Mail) ==> table.summary_at(row, at) == without_people(other)
    } by {
        lemma_summary_reads_back(row, at, other);
    }
}

proof fn lemma_summary_reads_back(row: Seq<ValueView>, at: int, other: SummaryView)
    requires
        0 <= at <= row.len(),
        summary_fits(other),
        row.skip(at) == columns_of(other),
    ensures
        column_fits(row, at + table_of(other).witness(), false),
        text_at(row, at + table_of(other).witness()) is Some,
        first_misfit(row, at, table_of(other).columns()) is None,
        !(other is Mail) ==> table_of(other).summary_at(row, at) == without_people(other),
{
    let s = row.skip(at);
    let table = table_of(other);
    assert forall|i: int| 0 <= i < s.len() implies row[at + i] == #[trigger] s[i] by {}
    match other {
        SummaryView::Mail(mail) => {
            lemma_mail_reads_back(row, at, mail);
        },
        SummaryView::Contact(contact) => {
            assert(s.len() == 4);
            assert(row[at] == s[0] && row[at + 1] == s[1] && row[at + 2] == s[2] && row[at + 3]
                == s[3]);
            lemma_no_misfit(row, at, table.columns());
            assert(table.summary_at(row, at) =~= without_people(other));
        },
        SummaryView::Event(event) => {
            assert(s.len() == 9);
            assert(row[at] == s[0] && row[at + 1] == s[1] && row[at + 2] == s[2]);
            assert(row[at + 3] == s[3] && row[at + 4] == s[4] && row[at + 5] == s[5]);
            assert(row[at + 6] == s[6] && row[at + 7] == s[7] && row[at + 8] == s[8]);
            lemma_time_reads_back(row, at + 3, event.dtstart);
            lemma_no_misfit(row, at, table.columns());
            assert(table.summary_at(row, at) =~= without_people(other));
        },
        SummaryView::Task(task) => {
            assert(s.len() == 13);
            assert(row[at] == s[0] && row[at + 1] == s[1] && row[at + 2] == s[2]);
            assert(row[at + 3] == s[3] && row[at + 4] == s[4] && row[at + 5] == s[5]);
            assert(row[at + 6] == s[6] && row[at + 7] == s[7] && row[at + 8] == s[8]);
            assert(row[at + 9] == s[9] && row[at + 10] == s[10] && row[at + 11] == s[11]);
            assert(row[at + 12] == s[12]);
            lemma_time_reads_back(row, at + 2, task.dtstart);
            lemma_time_reads_back(row, at + 5, task.due);
            lemma_no_misfit(row, at, table.columns());
            assert(table.summary_at(row, at) =~= without_people(other));
        },
        SummaryView::Journal(journal) => {
            assert(s.len() == 5);
            assert(row[at] == s[0] && row[at + 1] == s[1] && row[at + 2] == s[2]);
            assert(row[at + 3] == s[3] && row[at + 4] == s[4]);
            lemma_time_reads_back(row, at + 2, journal.dtstart);
            lemma_no_misfit(row, at, table.columns());
            assert(table.summary_at(row, at) =~= without_people(other));
        },
    }
}

/// An optional text as its column.
fn text_column(text: &Option<String>) -> (value: PimdirValue)
    ensures
        value@ == text_value(text.deep_view()),
{
    match text {
        Some(text) => PimdirValue::Text(text.clone()),
        None => PimdirValue::Null,
    }
}

/// An optional truth as its column.
fn flag_column(yes: &Option<bool>) -> (value: PimdirValue)
    ensures
        value@ == flag_value(*yes),
{
    match yes {
        Some(yes) => PimdirValue::Integer(bit_of(*yes)),
        None => PimdirValue::Null,
    }
}

/// Adds an optional time as its three columns.
fn push_time(row: &mut Vec<PimdirValue>, time: &Option<PimdirTime>)
    ensures
        final(row).deep_view() == old(row).deep_view() + time_values(time.deep_view()),
{
    let ghost before = row.deep_view();
    match time {
        Some(time) => {
            push_to(row, PimdirValue::Text(time.value.clone()));
            push_to(row, text_column(&time.tzid));
            push_to(row, PimdirValue::Text(time.value_kind().to_owned()));
        },
        None => {
            push_to(row, PimdirValue::Null);
            push_to(row, PimdirValue::Null);
            push_to(row, PimdirValue::Null);
        },
    }
    assert(row.deep_view() =~= before + time_values(time.deep_view()));
}

/// A summary's columns, in the order [`read_row`](PimdirSummaryTable::read_row)
/// reads them.
pub fn summary_columns(summary: &PimdirSummary) -> (row: Vec<PimdirValue>)
    ensures
        row.deep_view() == columns_of(summary@),
{
    let mut row: Vec<PimdirValue> = Vec::new();
    match summary {
        PimdirSummary::Mail(mail) => {
            push_to(&mut row, text_column(&mail.message_id));
            push_to(&mut row, PimdirValue::Text(ids_to_json(&mail.in_reply_to)));
            push_to(&mut row, PimdirValue::Text(mail.subject.clone()));
            push_to(&mut row, text_column(&mail.sender));
            push_to(&mut row, text_column(&mail.sender_name));
            push_to(&mut row, text_column(&mail.date));
            push_to(
                &mut row,
                match mail.size {
                    Some(size) => PimdirValue::Integer(#[verifier::truncate] (size as i64)),
                    None => PimdirValue::Null,
                },
            );
            push_to(&mut row, flag_column(&mail.attachment));
        },
        PimdirSummary::Contact(contact) => {
            push_to(&mut row, text_column(&contact.uid));
            push_to(&mut row, PimdirValue::Text(contact.full_name.clone()));
            push_to(&mut row, text_column(&contact.kind));
            push_to(&mut row, text_column(&contact.org));
        },
        PimdirSummary::Event(event) => {
            push_to(&mut row, text_column(&event.uid));
            push_to(&mut row, PimdirValue::Text(event.summary.clone()));
            push_to(&mut row, text_column(&event.location));
            push_time(&mut row, &event.dtstart);
            push_to(&mut row, text_column(&event.dtend));
            push_to(&mut row, flag_column(&event.recurring));
            push_to(&mut row, text_column(&event.until));
        },
        PimdirSummary::Task(task) => {
            push_to(&mut row, text_column(&task.uid));
            push_to(&mut row, PimdirValue::Text(task.summary.clone()));
            push_time(&mut row, &task.dtstart);
            push_time(&mut row, &task.due);
            push_to(&mut row, text_column(&task.status));
            push_to(&mut row, text_column(&task.completed));
            push_to(
                &mut row,
                match task.percent {
                    Some(percent) => PimdirValue::Integer(percent),
                    None => PimdirValue::Null,
                },
            );
            push_to(&mut row, flag_column(&task.recurring));
            push_to(&mut row, text_column(&task.until));
        },
        PimdirSummary::Journal(journal) => {
            push_to(&mut row, text_column(&journal.uid));
            push_to(&mut row, PimdirValue::Text(journal.summary.clone()));
            push_time(&mut row, &journal.dtstart);
        },
    }
    assert(row.deep_view() =~= columns_of(summary@));
    row
}

/// A summary with one more person, under the field the role names; the
/// same where the kind has no such role.
pub open spec fn with_person(
    summary: SummaryView,
    role: PimdirAddressRole,
    person: AddressView,
) -> SummaryView {
    match (summary, role) {
        (SummaryView::Mail(mail), PimdirAddressRole::From) => SummaryView::Mail(
            MailSummaryView { from: mail.from.push(person), ..mail },
        ),
        (SummaryView::Mail(mail), PimdirAddressRole::To) => SummaryView::Mail(
            MailSummaryView { to: mail.to.push(person), ..mail },
        ),
        (SummaryView::Mail(mail), PimdirAddressRole::Cc) => SummaryView::Mail(
            MailSummaryView { cc: mail.cc.push(person), ..mail },
        ),
        (SummaryView::Mail(mail), PimdirAddressRole::Bcc) => SummaryView::Mail(
            MailSummaryView { bcc: mail.bcc.push(person), ..mail },
        ),
        (SummaryView::Contact(contact), PimdirAddressRole::Email) => SummaryView::Contact(
            ContactSummaryView { emails: contact.emails.push(person), ..contact },
        ),
        (SummaryView::Event(event), PimdirAddressRole::Organizer) => SummaryView::Event(
            EventSummaryView { organizer: Some(person), ..event },
        ),
        (SummaryView::Event(event), PimdirAddressRole::Attendee) => SummaryView::Event(
            EventSummaryView { attendees: event.attendees.push(person), ..event },
        ),
        (SummaryView::Task(task), PimdirAddressRole::Organizer) => SummaryView::Task(
            TaskSummaryView { organizer: Some(person), ..task },
        ),
        (SummaryView::Task(task), PimdirAddressRole::Attendee) => SummaryView::Task(
            TaskSummaryView { attendees: task.attendees.push(person), ..task },
        ),
        (SummaryView::Journal(journal), PimdirAddressRole::Organizer) => SummaryView::Journal(
            JournalSummaryView { organizer: Some(person), ..journal },
        ),
        (SummaryView::Journal(journal), PimdirAddressRole::Attendee) => SummaryView::Journal(
            JournalSummaryView { attendees: journal.attendees.push(person), ..journal },
        ),
        _ => summary,
    }
}

/// Files an address row under the field its role names.
pub fn attach_address(
    summary: PimdirSummary,
    role: PimdirAddressRole,
    address: PimdirAddress,
) -> (whole: PimdirSummary)
    ensures
        whole@ == with_person(summary@, role, address@),
{
    match summary {
        PimdirSummary::Mail(mail) => {
            let mut mail = mail;
            match role {
                PimdirAddressRole::From => push_to(&mut mail.from, address),
                PimdirAddressRole::To => push_to(&mut mail.to, address),
                PimdirAddressRole::Cc => push_to(&mut mail.cc, address),
                PimdirAddressRole::Bcc => push_to(&mut mail.bcc, address),
                _ => {},
            }
            PimdirSummary::Mail(mail)
        },
        PimdirSummary::Contact(contact) => {
            let mut contact = contact;
            match role {
                PimdirAddressRole::Email => push_to(&mut contact.emails, address),
                _ => {},
            }
            PimdirSummary::Contact(contact)
        },
        PimdirSummary::Event(event) => {
            let mut event = event;
            match role {
                PimdirAddressRole::Organizer => {
                    event.organizer = Some(address);
                },
                PimdirAddressRole::Attendee => push_to(&mut event.attendees, address),
                _ => {},
            }
            PimdirSummary::Event(event)
        },
        PimdirSummary::Task(task) => {
            let mut task = task;
            match role {
                PimdirAddressRole::Organizer => {
                    task.organizer = Some(address);
                },
                PimdirAddressRole::Attendee => push_to(&mut task.attendees, address),
                _ => {},
            }
            PimdirSummary::Task(task)
        },
        PimdirSummary::Journal(journal) => {
            let mut journal = journal;
            match role {
                PimdirAddressRole::Organizer => {
                    journal.organizer = Some(address);
                },
                PimdirAddressRole::Attendee => push_to(&mut journal.attendees, address),
                _ => {},
            }
            PimdirSummary::Journal(journal)
        },
    }
}

/// A summary with people attached one after another.
pub open spec fn with_people(
    summary: SummaryView,
    people: Seq<(PimdirAddressRole, AddressView)>,
) -> SummaryView
    decreases people.len(),
{
    if people.len() == 0 {
        summary
    } else {
        with_person(
            with_people(summary, people.drop_last()),
            people.last().0,
            people.last().1,
        )
    }
}

proof fn lemma_people_join(
    summary: SummaryView,
    a: Seq<(PimdirAddressRole, AddressView)>,
    b: Seq<(PimdirAddressRole, AddressView)>,
)
    ensures
        with_people(summary, a + b) == with_people(with_people(summary, a), b),
    decreases b.len(),
{
    if b.len() == 0 {
        assert(a + b =~= a);
    } else {
        assert((a + b).drop_last() =~= a + b.drop_last());
        assert((a + b).last() == b.last());
        lemma_people_join(summary, a, b.drop_last());
    }
}

proof fn lemma_mail_people(mail: MailSummaryView, role: PimdirAddressRole, list: Seq<AddressView>)
    ensures
        with_people(SummaryView::Mail(mail), crate::summary::under(role, list))
            == SummaryView::Mail(
            match role {
                PimdirAddressRole::From => MailSummaryView { from: mail.from + list, ..mail },
                PimdirAddressRole::To => MailSummaryView { to: mail.to + list, ..mail },
                PimdirAddressRole::Cc => MailSummaryView { cc: mail.cc + list, ..mail },
                PimdirAddressRole::Bcc => MailSummaryView { bcc: mail.bcc + list, ..mail },
                _ => mail,
            },
        ),
    decreases list.len(),
{
    let people = crate::summary::under(role, list);
    if list.len() == 0 {
        assert(mail.from + list =~= mail.from);
        assert(mail.to + list =~= mail.to);
        assert(mail.cc + list =~= mail.cc);
        assert(mail.bcc + list =~= mail.bcc);
    } else {
        let before = list.drop_last();
        assert(people.drop_last() =~= crate::summary::under(role, before));
        assert(people.last() == (role, list.last()));
        lemma_mail_people(mail, role, before);
        assert((mail.from + before).push(list.last()) =~= mail.from + list);
        assert((mail.to + before).push(list.last()) =~= mail.to + list);
        assert((mail.cc + before).push(list.last()) =~= mail.cc + list);
        assert((mail.bcc + before).push(list.last()) =~= mail.bcc + list);
    }
}

proof fn lemma_emails(contact: ContactSummaryView, list: Seq<AddressView>)
    ensures
        with_people(
            SummaryView::Contact(contact),
            crate::summary::under(PimdirAddressRole::Email, list),
        ) == SummaryView::Contact(ContactSummaryView { emails: contact.emails + list, ..contact }),
    decreases list.len(),
{
    let people = crate::summary::under(PimdirAddressRole::Email, list);
    if list.len() == 0 {
        assert(contact.emails + list =~= contact.emails);
    } else {
        let before = list.drop_last();
        assert(people.drop_last() =~= crate::summary::under(PimdirAddressRole::Email, before));
        assert(people.last() == (PimdirAddressRole::Email, list.last()));
        lemma_emails(contact, before);
        assert((contact.emails + before).push(list.last()) =~= contact.emails + list);
    }
}

/// A calendar summary with these attendees more.
spec fn attended(summary: SummaryView, list: Seq<AddressView>) -> SummaryView {
    match summary {
        SummaryView::Event(event) => SummaryView::Event(
            EventSummaryView { attendees: event.attendees + list, ..event },
        ),
        SummaryView::Task(task) => SummaryView::Task(
            TaskSummaryView { attendees: task.attendees + list, ..task },
        ),
        SummaryView::Journal(journal) => SummaryView::Journal(
            JournalSummaryView { attendees: journal.attendees + list, ..journal },
        ),
        _ => summary,
    }
}

proof fn lemma_attendees(summary: SummaryView, list: Seq<AddressView>)
    requires
        !(summary is Mail || summary is Contact),
    ensures
        with_people(summary, crate::summary::under(PimdirAddressRole::Attendee, list)) == attended(
            summary,
            list,
        ),
    decreases list.len(),
{
    let people = crate::summary::under(PimdirAddressRole::Attendee, list);
    if list.len() == 0 {
        assert(attended(summary, list) =~= summary);
    } else {
        let before = list.drop_last();
        assert(people.drop_last() =~= crate::summary::under(PimdirAddressRole::Attendee, before));
        assert(people.last() == (PimdirAddressRole::Attendee, list.last()));
        lemma_attendees(summary, before);
        assert(with_person(
            attended(summary, before),
            PimdirAddressRole::Attendee,
            list.last(),
        ) =~= attended(summary, list));
    }
}

/// Attaching the people a summary names to its columns gives back the
/// whole summary.
pub proof fn lemma_a_summary_is_its_columns_and_its_people(summary: SummaryView)
    ensures
        with_people(without_people(summary), summary.addresses()) == summary,
{
    let bare = without_people(summary);
    match summary {
        SummaryView::Mail(mail) => {
            let (from, to, cc, bcc) = (
                crate::summary::under(PimdirAddressRole::From, mail.from),
                crate::summary::under(PimdirAddressRole::To, mail.to),
                crate::summary::under(PimdirAddressRole::Cc, mail.cc),
                crate::summary::under(PimdirAddressRole::Bcc, mail.bcc),
            );
            lemma_people_join(bare, from + to + cc, bcc);
            lemma_people_join(bare, from + to, cc);
            lemma_people_join(bare, from, to);
            let m0 = bare->Mail_0;
            lemma_mail_people(m0, PimdirAddressRole::From, mail.from);
            let m1 = MailSummaryView { from: m0.from + mail.from, ..m0 };
            lemma_mail_people(m1, PimdirAddressRole::To, mail.to);
            let m2 = MailSummaryView { to: m1.to + mail.to, ..m1 };
            lemma_mail_people(m2, PimdirAddressRole::Cc, mail.cc);
            let m3 = MailSummaryView { cc: m2.cc + mail.cc, ..m2 };
            lemma_mail_people(m3, PimdirAddressRole::Bcc, mail.bcc);
            assert(m0.from + mail.from =~= mail.from);
            assert(m1.to + mail.to =~= mail.to);
            assert(m2.cc + mail.cc =~= mail.cc);
            assert(m3.bcc + mail.bcc =~= mail.bcc);
        },
        SummaryView::Contact(contact) => {
            lemma_emails(bare->Contact_0, contact.emails);
            assert(bare->Contact_0.emails + contact.emails =~= contact.emails);
        },
        SummaryView::Event(event) => {
            lemma_meeting_people(bare, event.organizer, event.attendees);
            assert(with_people(bare, summary.addresses()) =~= summary);
        },
        SummaryView::Task(task) => {
            lemma_meeting_people(bare, task.organizer, task.attendees);
            assert(with_people(bare, summary.addresses()) =~= summary);
        },
        SummaryView::Journal(journal) => {
            lemma_meeting_people(bare, journal.organizer, journal.attendees);
            assert(with_people(bare, summary.addresses()) =~= summary);
        },
    }
}

proof fn lemma_meeting_people(
    bare: SummaryView,
    organizer: Option<AddressView>,
    attendees: Seq<AddressView>,
)
    requires
        !(bare is Mail || bare is Contact),
    ensures
        with_people(bare, crate::summary::at_a_meeting(organizer, attendees)) == attended(
            match organizer {
                Some(organizer) => with_person(bare, PimdirAddressRole::Organizer, organizer),
                None => bare,
            },
            attendees,
        ),
{
    reveal_with_fuel(with_people, 2);
    let chairs = crate::summary::under(
        PimdirAddressRole::Organizer,
        match organizer {
            Some(organizer) => seq![organizer],
            None => Seq::empty(),
        },
    );
    let rest = crate::summary::under(PimdirAddressRole::Attendee, attendees);
    lemma_people_join(bare, chairs, rest);
    let led = match organizer {
        Some(organizer) => with_person(bare, PimdirAddressRole::Organizer, organizer),
        None => bare,
    };
    if organizer is Some {
        assert(chairs.len() == 1);
        assert(chairs.last() == (PimdirAddressRole::Organizer, organizer->0));
        assert(chairs.drop_last().len() == 0);
        assert(with_people(bare, chairs) == led);
    } else {
        assert(chairs.len() == 0);
    }
    lemma_attendees(led, attendees);
}

/// Each column of an item's row holds the item's own: a level by its rung,
/// a yes by one and a no by zero.
pub proof fn lemma_an_item_row_holds_its_columns(link: Text, item: HubItemView)
    ensures
        ({
            let row = row_of_item(link, item);
            &&& row.link_id == link
            &&& row.flags is Some <==> item.flags is Some
            &&& row.object == item.object
            &&& row.sort_key == item.sort_key
            &&& item.level == PimdirLevel::Probed ==> row.level == 0
            &&& item.level == PimdirLevel::Meta ==> row.level == 1
            &&& item.level == PimdirLevel::Full ==> row.level == 2
            &&& row.deleted == (if item.deleted {
                1i64
            } else {
                0i64
            })
            &&& row.conflicted == (if item.conflicted {
                1i64
            } else {
                0i64
            })
            &&& row.conflict_object == item.conflict_object
        }),
{
}

/// An item read from its row is what each column of the row holds, and no
/// summary or binding is in it.
pub proof fn lemma_an_item_is_read_from_its_columns(row: ItemRowView)
    ensures
        ({
            let item = item_of_row(row);
            &&& row.flags is None ==> item.flags is None
            &&& item.object == row.object
            &&& item.sort_key == row.sort_key
            &&& row.level == 1 ==> item.level == PimdirLevel::Meta
            &&& row.level == 2 ==> item.level == PimdirLevel::Full
            &&& row.level != 1 && row.level != 2 ==> item.level == PimdirLevel::Probed
            &&& item.deleted <==> row.deleted != 0
            &&& item.conflicted <==> row.conflicted != 0
            &&& item.conflict_object == row.conflict_object
            &&& item.summary is None
            &&& item.sources.dom().is_empty()
        }),
{
}

/// Each column of a binding's row holds the binding's own; the columns of
/// a conflict are empty where there is none, whatever the binding keeps.
pub proof fn lemma_a_binding_row_holds_its_columns(link: Text, source: Text, binding: BindingView)
    ensures
        ({
            let row = row_of_binding(link, source, binding);
            &&& row.link_id == link
            &&& row.source == source
            &&& row.handle == binding.handle
            &&& binding.base matches Some(base) ==> row.base_present == 1 && row.base_object
                == base.object && row.base_revision == base.revision && (row.base_flags is Some
                <==> base.flags is Some)
            &&& binding.base is None ==> row.base_present == 0 && row.base_object is None
                && row.base_revision is None && row.base_flags is None
            &&& binding.conflicted ==> row.conflicted == 1 && row.conflict_revision
                == binding.conflict_revision && row.conflict_object == binding.conflict_object
            &&& !binding.conflicted ==> row.conflicted == 0 && row.conflict_revision is None
                && row.conflict_object is None
            &&& row.shared_object == binding.shared_object
        }),
{
}

/// A binding read from its row is what each column holds: it has a base
/// where the row says so or any column of one is there, and a conflict's
/// columns only where it is in conflict.
pub proof fn lemma_a_binding_is_read_from_its_columns(row: BindingRowView)
    ensures
        ({
            let binding = binding_of_row(row);
            &&& binding.handle == row.handle
            &&& binding.base is Some <==> (row.base_present != 0 || row.base_flags is Some
                || row.base_object is Some || row.base_revision is Some)
            &&& binding.base matches Some(base) ==> base.object == row.base_object && base.revision
                == row.base_revision && (row.base_flags is None ==> base.flags is None)
            &&& binding.conflicted <==> row.conflicted != 0
            &&& row.conflicted != 0 ==> binding.conflict_revision == row.conflict_revision
                && binding.conflict_object == row.conflict_object
            &&& row.conflicted == 0 ==> binding.conflict_revision is None
                && binding.conflict_object is None
            &&& binding.shared_object == row.shared_object
        }),
{
}

/// Every kind of summary has a table of its own, and a collection of a
/// kind is listed from the tables its items can have.
pub proof fn lemma_a_collection_reads_its_tables(kind: Text, params: Text, summary: SummaryView)
    requires
        forall|i: int| 0 <= i < kind.len() ==> #[trigger] kind[i] != ';',
    ensures
        tables_for(kind + seq![';'] + params) == tables_for(kind),
        trim(kind) == "message/rfc822"@ ==> (tables_for(kind).contains(table_of(summary)) <==> summary
            is Mail),
        trim(kind) == "text/vcard"@ ==> (tables_for(kind).contains(table_of(summary)) <==> summary
            is Contact),
        trim(kind) == "text/calendar"@ ==> (tables_for(kind).contains(table_of(summary)) <==> !(
        summary is Mail || summary is Contact)),
        trim(kind) != "message/rfc822"@ && trim(kind) != "text/vcard"@ && trim(kind)
            != "text/calendar"@ ==> tables_for(kind).contains(table_of(summary)),
{
    let whole = kind + seq![';'] + params;
    assert forall|i: int| 0 <= i < kind.len() implies whole[i] != ';' by {
        assert(whole[i] == kind[i]);
    }
    crate::scan::lemma_find_char_at(whole, ';', kind.len() as int);
    crate::scan::lemma_find_char_at(kind, ';', kind.len() as int);
    assert(whole.take(kind.len() as int) =~= kind);
    assert(kind.take(kind.len() as int) =~= kind);
    reveal_strlit("message/rfc822");
    reveal_strlit("text/vcard");
    reveal_strlit("text/calendar");
    assert("message/rfc822"@.len() == 14 && "text/vcard"@.len() == 10 && "text/calendar"@.len()
        == 13);
    let tables = tables_for(kind);
    if trim(kind) == "message/rfc822"@ || trim(kind) == "text/vcard"@ {
        assert(tables[0] == tables[0]);
    } else if trim(kind) == "text/calendar"@ {
        assert(tables[0] == PimdirSummaryTable::Event && tables[1] == PimdirSummaryTable::Task
            && tables[2] == PimdirSummaryTable::Journal);
    } else {
        assert(tables[0] == PimdirSummaryTable::Mail && tables[1] == PimdirSummaryTable::Contact
            && tables[2] == PimdirSummaryTable::Event && tables[3] == PimdirSummaryTable::Task
            && tables[4] == PimdirSummaryTable::Journal);
    }
}

/// Each column of a summary's row holds the property it is named for.
pub proof fn lemma_a_summary_row_holds_its_columns(
    mail: MailSummaryView,
    card: ContactSummaryView,
    event: EventSummaryView,
    task: TaskSummaryView,
    journal: JournalSummaryView,
)
    ensures
        ({
            let row = columns_of(SummaryView::Mail(mail));
            &&& row.len() == 8
            &&& text_at(row, 0) == mail.message_id
            &&& text_at(row, 1) == Some(json_list(mail.in_reply_to))
            &&& text_at(row, 2) == Some(mail.subject)
            &&& text_at(row, 3) == mail.sender
            &&& text_at(row, 4) == mail.sender_name
            &&& text_at(row, 5) == mail.date
            &&& mail.size matches Some(size) ==> number_at(row, 6) == Some(size as i64)
            &&& flag_at(row, 7) == mail.attachment
        }),
        ({
            let row = columns_of(SummaryView::Contact(card));
            &&& row.len() == 4
            &&& text_at(row, 0) == card.uid
            &&& text_at(row, 1) == Some(card.full_name)
            &&& text_at(row, 2) == card.kind
            &&& text_at(row, 3) == card.org
        }),
        ({
            let row = columns_of(SummaryView::Event(event));
            &&& row.len() == 9
            &&& text_at(row, 0) == event.uid
            &&& text_at(row, 1) == Some(event.summary)
            &&& text_at(row, 2) == event.location
            &&& event.dtstart matches Some(start) ==> text_at(row, 3) == Some(start.value)
                && text_at(row, 4) == start.tzid
            &&& event.dtstart is None ==> text_at(row, 3) is None && text_at(row, 4) is None
                && text_at(row, 5) is None
            &&& text_at(row, 6) == event.dtend
            &&& flag_at(row, 7) == event.recurring
            &&& text_at(row, 8) == event.until
        }),
        ({
            let row = columns_of(SummaryView::Task(task));
            &&& row.len() == 13
            &&& text_at(row, 0) == task.uid
            &&& text_at(row, 1) == Some(task.summary)
            &&& task.dtstart matches Some(start) ==> text_at(row, 2) == Some(start.value)
                && text_at(row, 3) == start.tzid
            &&& task.due matches Some(due) ==> text_at(row, 5) == Some(due.value) && text_at(row, 6)
                == due.tzid
            &&& text_at(row, 8) == task.status
            &&& text_at(row, 9) == task.completed
            &&& number_at(row, 10) == task.percent
            &&& flag_at(row, 11) == task.recurring
            &&& text_at(row, 12) == task.until
        }),
        ({
            let row = columns_of(SummaryView::Journal(journal));
            &&& row.len() == 5
            &&& text_at(row, 0) == journal.uid
            &&& text_at(row, 1) == Some(journal.summary)
            &&& journal.dtstart matches Some(start) ==> text_at(row, 2) == Some(start.value)
                && text_at(row, 3) == start.tzid
        }),
{
}

} // verus!
