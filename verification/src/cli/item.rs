//! # The `item` verb group
//!
//! List, show, export, restore and purge. None of it interprets content: an
//! item prints as its public id, its key, its flags, its detail level, its
//! body hash and its meta verbatim.

use crate::cli::collection::signed;
use crate::cli::queue::{flags_of, list_flags};
use crate::cli::{bytes, bytes_text, count_text, dashed, glue, join, joined, or_dash};
use crate::client::reader::{ItemView, PimdirItem};
use crate::codec::{push_signed, signed_text, ActionView, PimdirAction};
use crate::hub::{BindingView, PimdirBinding};
use crate::list::{extend_with, push_to};
use crate::placement::{PimdirFlags, PimdirLevel};
use crate::scan::{bounded_decimal, chars_of, decimal, decimal_text, parse_signed};
use crate::summary::as_borrowed;
use crate::text::Text;
use vstd::prelude::*;
use vstd::string::*;

verus! {

/// One item as every listing prints it.
#[derive(Debug, PartialEq, Eq)]
pub struct ItemRow {
    /// The collection holding this placement.
    pub collection: String,
    /// The item's public id.
    pub seq: i64,
    /// The cross-source link id.
    pub link_id: String,
    /// The raw flag strings, `None` while nothing has read them.
    pub flags: Option<Vec<String>>,
    /// The detail level: `probed`, `meta` or `full`.
    pub level: String,
    /// The body's content hash, when hydrated.
    pub object: Option<String>,
    /// The body's size, when known.
    pub size: Option<u64>,
    /// The raw meta, verbatim.
    pub meta: Option<String>,
    /// When the last binding vanished, for a retained item.
    pub retained_at: Option<String>,
    /// The source whose removal retired the item.
    pub retained_by: Option<String>,
}

/// What a [`ItemRow`] says, by value.
#[verifier::ext_equal]
pub struct ItemRowView {
    pub collection: Text,
    pub seq: i64,
    pub link_id: Text,
    pub flags: Option<Seq<Text>>,
    pub level: Text,
    pub object: Option<Text>,
    pub size: Option<u64>,
    pub meta: Option<Text>,
    pub retained_at: Option<Text>,
    pub retained_by: Option<Text>,
}

impl View for ItemRow {
    type V = ItemRowView;

    open spec fn view(&self) -> ItemRowView {
        ItemRowView {
            collection: self.collection@,
            seq: self.seq,
            link_id: self.link_id@,
            flags: self.flags.deep_view(),
            level: self.level@,
            object: self.object.deep_view(),
            size: self.size,
            meta: self.meta.deep_view(),
            retained_at: self.retained_at.deep_view(),
            retained_by: self.retained_by.deep_view(),
        }
    }
}

impl DeepView for ItemRow {
    type V = ItemRowView;

    open spec fn deep_view(&self) -> ItemRowView {
        self@
    }
}

/// One source's binding of an item: how that source addresses it, what the
/// last sync agreed on, and the marker that says why it might have stopped
/// moving.
#[derive(Debug, PartialEq, Eq)]
pub struct BindingRow {
    /// The source holding the binding.
    pub source: String,
    /// The handle the item is addressed by there.
    pub handle: String,
    /// Whether a base exists at all, which its three values cannot say: a
    /// source reporting no revision, no body and no flags still agreed.
    pub base: bool,
    /// The base flag set, `None` while nothing has read them.
    pub base_flags: Option<Vec<String>>,
    /// The body the base agreed on, when it carried one.
    pub base_object: Option<String>,
    /// The revision the base agreed on, when the source reports one.
    pub base_revision: Option<String>,
    /// Whether this source and its own remote diverged.
    pub conflicted: bool,
    /// The remote revision observed when the divergence was recorded.
    pub conflict_revision: Option<String>,
}

/// What a [`BindingRow`] says, by value.
#[verifier::ext_equal]
pub struct BindingRowView {
    pub source: Text,
    pub handle: Text,
    pub base: bool,
    pub base_flags: Option<Seq<Text>>,
    pub base_object: Option<Text>,
    pub base_revision: Option<Text>,
    pub conflicted: bool,
    pub conflict_revision: Option<Text>,
}

impl View for BindingRow {
    type V = BindingRowView;

    open spec fn view(&self) -> BindingRowView {
        BindingRowView {
            source: self.source@,
            handle: self.handle@,
            base: self.base,
            base_flags: self.base_flags.deep_view(),
            base_object: self.base_object.deep_view(),
            base_revision: self.base_revision.deep_view(),
            conflicted: self.conflicted,
            conflict_revision: self.conflict_revision.deep_view(),
        }
    }
}

impl DeepView for BindingRow {
    type V = BindingRowView;

    open spec fn deep_view(&self) -> BindingRowView {
        self@
    }
}

/// The `item list` output: one page, plus what it left out.
#[derive(Debug, PartialEq, Eq)]
pub struct ItemsOutput {
    /// The listed collection.
    pub collection: String,
    /// Whether the page lists retained items.
    pub retained: bool,
    /// The page.
    pub items: Vec<ItemRow>,
    /// The cursor to resume from, `None` when the page is the last one.
    pub next: Option<String>,
}

/// What a [`ItemsOutput`] says, by value.
#[verifier::ext_equal]
pub struct ItemsOutputView {
    pub collection: Text,
    pub retained: bool,
    pub items: Seq<ItemRowView>,
    pub next: Option<Text>,
}

impl View for ItemsOutput {
    type V = ItemsOutputView;

    open spec fn view(&self) -> ItemsOutputView {
        ItemsOutputView {
            collection: self.collection@,
            retained: self.retained,
            items: self.items.deep_view(),
            next: self.next.deep_view(),
        }
    }
}

impl DeepView for ItemsOutput {
    type V = ItemsOutputView;

    open spec fn deep_view(&self) -> ItemsOutputView {
        self@
    }
}

/// One placement of an item, with the bindings the sources hold it under.
#[derive(Debug, PartialEq, Eq)]
pub struct ItemPlacement {
    /// The item.
    pub item: ItemRow,
    /// One entry per source holding this placement, ordered by source.
    pub bindings: Vec<BindingRow>,
}

/// What a [`ItemPlacement`] says, by value.
#[verifier::ext_equal]
pub struct ItemPlacementView {
    pub item: ItemRowView,
    pub bindings: Seq<BindingRowView>,
}

impl View for ItemPlacement {
    type V = ItemPlacementView;

    open spec fn view(&self) -> ItemPlacementView {
        ItemPlacementView {
            item: self.item@,
            bindings: self.bindings.deep_view(),
        }
    }
}

impl DeepView for ItemPlacement {
    type V = ItemPlacementView;

    open spec fn deep_view(&self) -> ItemPlacementView {
        self@
    }
}

/// The `item show` output: every placement of one public id.
#[derive(Debug, PartialEq, Eq)]
pub struct ItemShowOutput {
    /// The public id looked up.
    pub seq: i64,
    /// One entry per collection holding it.
    pub placements: Vec<ItemPlacement>,
}

/// What a [`ItemShowOutput`] says, by value.
#[verifier::ext_equal]
pub struct ItemShowOutputView {
    pub seq: i64,
    pub placements: Seq<ItemPlacementView>,
}

impl View for ItemShowOutput {
    type V = ItemShowOutputView;

    open spec fn view(&self) -> ItemShowOutputView {
        ItemShowOutputView {
            seq: self.seq,
            placements: self.placements.deep_view(),
        }
    }
}

impl DeepView for ItemShowOutput {
    type V = ItemShowOutputView;

    open spec fn deep_view(&self) -> ItemShowOutputView {
        self@
    }
}

/// A located item together with the collection holding it. Retained or live
/// is the item's own retention.
#[derive(Debug, PartialEq, Eq)]
pub struct Found {
    /// The collection.
    pub collection: String,
    /// The item.
    pub item: PimdirItem,
}

/// What a [`Found`] says, by value.
#[verifier::ext_equal]
pub struct FoundView {
    pub collection: Text,
    pub item: ItemView,
}

impl View for Found {
    type V = FoundView;

    open spec fn view(&self) -> FoundView {
        FoundView {
            collection: self.collection@,
            item: self.item@,
        }
    }
}

impl DeepView for Found {
    type V = FoundView;

    open spec fn deep_view(&self) -> FoundView {
        self@
    }
}

impl Clone for Found {
    fn clone(&self) -> (copy: Self)
        ensures
            copy@ == self@,
    {
        Found {
            collection: self.collection.clone(),
            item: self.item.clone(),
        }
    }
}

/// The detail ladder as its lowercase name.
pub open spec fn level_text(level: PimdirLevel) -> Text {
    match level {
        PimdirLevel::Probed => "probed"@,
        PimdirLevel::Meta => "meta"@,
        PimdirLevel::Full => "full"@,
    }
}

/// The detail ladder as its lowercase name.
pub fn level_name(level: PimdirLevel) -> (name: &'static str)
    ensures
        name@ == level_text(level),
{
    match level {
        PimdirLevel::Probed => "probed",
        PimdirLevel::Meta => "meta",
        PimdirLevel::Full => "full",
    }
}

/// The flag set as a sorted list of raw strings, `None` while nothing has
/// read them.
pub open spec fn flags_listed(flags: Option<Set<Text>>) -> Option<Seq<Text>> {
    match flags {
        Some(_) => Some(flags_of(flags)),
        None => None,
    }
}

/// The flag set as a sorted list of raw strings, never interpreted, or
/// `None` while nothing has read them.
pub fn flag_list(flags: &PimdirFlags) -> (list: Option<Vec<String>>)
    ensures
        list.deep_view() == flags_listed(flags@),
{
    if flags.is_unknown() {
        None
    } else {
        Some(list_flags(flags))
    }
}

/// A flag list as a cell: its flags, or a dash where it says none.
pub open spec fn flags_cell(flags: Option<Seq<Text>>) -> Text {
    match flags {
        Some(flags) => {
            let shown = joined(flags, " "@);
            if shown.len() > 0 {
                shown
            } else {
                "-"@
            }
        },
        None => "-"@,
    }
}

/// A flag list as a cell.
fn flags_text(flags: &Option<Vec<String>>) -> (text: String)
    ensures
        text@ == flags_cell(flags.deep_view()),
{
    match flags {
        Some(flags) => {
            let shown = join(flags, " ");
            if chars_of(shown.as_str()).len() > 0 {
                shown
            } else {
                "-".to_owned()
            }
        },
        None => "-".to_owned(),
    }
}

/// One item's row.
pub open spec fn row_of(collection: Text, item: ItemView, meta: Option<Text>) -> ItemRowView {
    ItemRowView {
        collection,
        seq: item.seq,
        link_id: item.link_id,
        flags: flags_listed(item.flags),
        level: level_text(item.level),
        object: item.object,
        size: match item.retention {
            Some(retention) => retention.size,
            None => None,
        },
        meta,
        retained_at: match item.retention {
            Some(retention) => Some(retention.at),
            None => None,
        },
        retained_by: match item.retention {
            Some(retention) => retention.by,
            None => None,
        },
    }
}

/// The cursor resuming a listing after a row.
pub open spec fn cursor_of(row: ItemRowView, retained: bool) -> Text {
    if retained {
        signed_text(row.seq as int)
    } else {
        row.link_id
    }
}

impl ItemRow {
    /// One item's row, live or retained.
    pub fn new(collection: &str, item: &PimdirItem, meta: Option<String>) -> (row: Self)
        ensures
            row@ == row_of(collection@, item@, meta.deep_view()),
    {
        let (size, retained_at, retained_by) = match &item.retention {
            Some(retention) => (retention.size, Some(retention.at.clone()), retention.by.clone()),
            None => (None, None, None),
        };
        ItemRow {
            collection: collection.to_owned(),
            seq: item.seq,
            link_id: item.link_id.0.clone(),
            flags: flag_list(&item.flags),
            level: level_name(item.level).to_owned(),
            object: match &item.object {
                Some(hash) => Some(hash.0.clone()),
                None => None,
            },
            size,
            meta,
            retained_at,
            retained_by,
        }
    }

    /// The cursor resuming a listing after this row.
    pub fn cursor(&self, retained: bool) -> (cursor: String)
        ensures
            cursor@ == cursor_of(self@, retained),
    {
        if retained {
            signed(self.seq)
        } else {
            self.link_id.clone()
        }
    }
}

/// How many rows a page reads: one more than asked, so it knows whether it
/// is the last without a second query.
pub fn probe_limit(limit: usize) -> (probe: usize)
    ensures
        probe == if limit == 0 {
            2
        } else if limit == usize::MAX {
            usize::MAX as int
        } else {
            limit + 1
        },
{
    if limit == 0 {
        2
    } else if limit == usize::MAX {
        usize::MAX
    } else {
        limit + 1
    }
}

/// The public id a retained listing resumes after, `None` for a cursor that
/// is no number.
pub fn retained_cursor(cursor: &str) -> (seq: Option<i64>)
    ensures
        match seq {
            Some(seq) => bounded_decimal(cursor@, true, i64::MIN as int, i64::MAX as int) == Some(
                seq as int,
            ),
            None => bounded_decimal(cursor@, true, i64::MIN as int, i64::MAX as int) is None,
        },
{
    let chars = chars_of(cursor);
    parse_signed(chars.as_slice(), i64::MAX)
}

/// A page of a listing: at most as many rows as asked, at least one, and
/// the cursor of the last where more follow.
pub open spec fn page_of(
    collection: Text,
    retained: bool,
    rows: Seq<ItemRowView>,
    limit: nat,
) -> ItemsOutputView {
    let asked = if limit == 0 {
        1
    } else {
        limit
    };
    if rows.len() > asked {
        ItemsOutputView {
            collection,
            retained,
            items: rows.take(asked as int),
            next: Some(cursor_of(rows[asked - 1], retained)),
        }
    } else {
        ItemsOutputView { collection, retained, items: rows, next: None }
    }
}

/// The listing's header.
pub open spec fn items_header(retained: bool) -> Seq<Text> {
    let own = seq!["SEQ"@, "LINK ID"@, "FLAGS"@, "LEVEL"@, "OBJECT"@];
    if retained {
        own + seq!["RETAINED AT"@, "BY"@]
    } else {
        own
    }
}

/// A row's cells.
pub open spec fn item_cells(row: ItemRowView, retained: bool) -> Seq<Text> {
    let own = seq![
        signed_text(row.seq as int),
        row.link_id,
        flags_cell(row.flags),
        row.level,
        dashed(row.object),
    ];
    if retained {
        own + seq![dashed(row.retained_at), dashed(row.retained_by)]
    } else {
        own
    }
}

/// The listing's header.
fn header_cells(retained: bool) -> (cells: Vec<String>)
    ensures
        cells.deep_view() == items_header(retained),
{
    let mut cells: Vec<String> = Vec::new();
    push_to(&mut cells, "SEQ".to_owned());
    push_to(&mut cells, "LINK ID".to_owned());
    push_to(&mut cells, "FLAGS".to_owned());
    push_to(&mut cells, "LEVEL".to_owned());
    push_to(&mut cells, "OBJECT".to_owned());
    if retained {
        push_to(&mut cells, "RETAINED AT".to_owned());
        push_to(&mut cells, "BY".to_owned());
    }
    assert(cells.deep_view() =~= items_header(retained));
    cells
}

/// A row's cells.
fn row_cells(row: &ItemRow, retained: bool) -> (cells: Vec<String>)
    ensures
        cells.deep_view() == item_cells(row@, retained),
{
    let mut cells: Vec<String> = Vec::new();
    push_to(&mut cells, signed(row.seq));
    push_to(&mut cells, row.link_id.clone());
    push_to(&mut cells, flags_text(&row.flags));
    push_to(&mut cells, row.level.clone());
    push_to(&mut cells, or_dash(as_borrowed(&row.object)).to_owned());
    if retained {
        push_to(&mut cells, or_dash(as_borrowed(&row.retained_at)).to_owned());
        push_to(&mut cells, or_dash(as_borrowed(&row.retained_by)).to_owned());
    }
    assert(cells.deep_view() =~= item_cells(row@, retained));
    cells
}

/// Every row's cells.
fn all_cells(list: &Vec<ItemRow>, retained: bool) -> (out: Vec<Vec<String>>)
    ensures
        out.deep_view() == list.deep_view().map_values(|x: ItemRowView| item_cells(x, retained)),
{
    let ghost all = list.deep_view();
    let ghost told = |x: ItemRowView| item_cells(x, retained);
    let mut out: Vec<Vec<String>> = Vec::new();
    let mut i: usize = 0;
    assert(out.deep_view() =~= all.take(0).map_values(told));
    while i < list.len()
        invariant
            i <= list.len(),
            all == list.deep_view(),
            told == (|x: ItemRowView| item_cells(x, retained)),
            out.deep_view() == all.take(i as int).map_values(told),
        decreases list.len() - i,
    {
        assert(all[i as int] == list@[i as int].deep_view());
        push_to(&mut out, row_cells(&list[i], retained));
        assert(out.deep_view() =~= all.take(i + 1).map_values(told));
        i = i + 1;
    }
    assert(all.take(i as int) =~= all);
    out
}

impl ItemsOutput {
    /// One page of a collection's items, from the rows [`probe_limit`]
    /// read: it never truncates silently, and tells the cursor to resume
    /// from.
    pub fn new(collection: String, retained: bool, rows: Vec<ItemRow>, limit: usize) -> (page: Self)
        ensures
            page@ == page_of(collection@, retained, rows.deep_view(), limit as nat),
    {
        let ghost all = rows.deep_view();
        let asked: usize = if limit == 0 {
            1
        } else {
            limit
        };
        let mut items = rows;
        assert(items.len() == all.len());
        let mut next: Option<String> = None;
        if items.len() > asked {
            assert(all[asked - 1] == items@[asked - 1]@);
            next = Some(items[asked - 1].cursor(retained));
            items.truncate(asked);
            assert(items.deep_view() =~= all.take(asked as int));
        }
        ItemsOutput { collection, retained, items, next }
    }

    /// The table of the page, its header first, where it holds any item.
    pub fn table(&self) -> (table: Option<(Vec<String>, Vec<Vec<String>>)>)
        ensures
            match table {
                Some((header, rows)) => self.items.len() > 0 && header.deep_view()
                    == items_header(self.retained) && rows.deep_view()
                    == self.items.deep_view().map_values(
                    |x: ItemRowView| item_cells(x, self.retained),
                ),
                None => self.items.len() == 0,
            },
    {
        if self.items.len() == 0 {
            return None;
        }
        Some((header_cells(self.retained), all_cells(&self.items, self.retained)))
    }

    /// What is said of a page that holds no item.
    pub fn nothing(&self) -> (text: String)
        ensures
            text@ == if self.retained {
                "No retained item in "@ + self.collection@
            } else {
                "No live item in "@ + self.collection@
            },
    {
        if self.retained {
            glue("No retained item in ", self.collection.as_str())
        } else {
            glue("No live item in ", self.collection.as_str())
        }
    }

    /// What is said below the table: a page that stops short says so.
    pub fn footer(&self) -> (text: Option<String>)
        ensures
            text.deep_view() == match self@.next {
                Some(next) => Some("More items follow: continue with --after "@ + next),
                None => None,
            },
    {
        match &self.next {
            Some(next) => Some(glue("More items follow: continue with --after ", next.as_str())),
            None => None,
        }
    }
}

/// One binding's row.
pub open spec fn binding_row(source: Text, binding: BindingView) -> BindingRowView {
    BindingRowView {
        source,
        handle: binding.handle,
        base: binding.base is Some,
        base_flags: match binding.base {
            Some(base) => flags_listed(base.flags),
            None => None,
        },
        base_object: match binding.base {
            Some(base) => base.object,
            None => None,
        },
        base_revision: match binding.base {
            Some(base) => base.revision,
            None => None,
        },
        conflicted: binding.conflicted,
        conflict_revision: binding.conflict_revision,
    }
}

impl BindingRow {
    /// One binding's row.
    pub fn new(source: &str, binding: &PimdirBinding) -> (row: Self)
        ensures
            row@ == binding_row(source@, binding@),
    {
        let (base, base_flags, base_object, base_revision) = match &binding.base {
            Some(base) => (
                true,
                flag_list(&base.flags),
                match &base.object {
                    Some(hash) => Some(hash.0.clone()),
                    None => None,
                },
                base.revision.clone(),
            ),
            None => (false, None, None, None),
        };
        BindingRow {
            source: source.to_owned(),
            handle: binding.handle.0.clone(),
            base,
            base_flags,
            base_object,
            base_revision,
            conflicted: binding.conflicted,
            conflict_revision: binding.conflict_revision.clone(),
        }
    }
}

/// What is said of a binding, line by line. The exception line is there
/// only when it applies, which makes a diverged binding stand out.
pub open spec fn binding_lines(row: BindingRowView) -> Seq<Text> {
    seq![" - binding "@ + row.source + ": "@ + row.handle] + (if row.base {
        seq![
            "    - base object: "@ + dashed(row.base_object),
            "    - base flags: "@ + flags_cell(row.base_flags),
            "    - base revision: "@ + dashed(row.base_revision),
        ]
    } else {
        seq!["    - base: none"@]
    }) + (if row.conflicted {
        seq!["    - conflicted at revision: "@ + dashed(row.conflict_revision)]
    } else {
        Seq::empty()
    })
}

/// What is said of an item, line by line.
pub open spec fn item_lines(row: ItemRowView) -> Seq<Text> {
    seq![
        "Item "@ + signed_text(row.seq as int) + " in "@ + row.collection,
        " - link id: "@ + row.link_id,
        " - flags: "@ + flags_cell(row.flags),
        " - level: "@ + row.level,
        " - object: "@ + dashed(row.object),
    ] + (match row.size {
        Some(size) => seq![" - size: "@ + bytes_text(size as nat)],
        None => Seq::empty(),
    }) + (match row.retained_at {
        Some(at) => seq![
            " - retained at: "@ + at,
            " - retained by: "@ + dashed(row.retained_by),
        ],
        None => Seq::empty(),
    }) + seq![" - meta: "@ + dashed(row.meta)]
}

/// What is said of bindings, one after another.
pub open spec fn all_binding_lines(rows: Seq<BindingRowView>) -> Seq<Text>
    decreases rows.len(),
{
    if rows.len() == 0 {
        Seq::empty()
    } else {
        all_binding_lines(rows.drop_last()) + binding_lines(rows.last())
    }
}

/// What is said of placements, one after another, a blank line between each
/// two.
pub open spec fn show_lines(placements: Seq<ItemPlacementView>) -> Seq<Text>
    decreases placements.len(),
{
    if placements.len() == 0 {
        Seq::empty()
    } else {
        show_lines(placements.drop_last()) + (if placements.len() > 1 {
            seq![Seq::empty()]
        } else {
            Seq::empty()
        }) + item_lines(placements.last().item) + all_binding_lines(placements.last().bindings)
    }
}

/// What is said of a binding, line by line.
fn binding_text(row: &BindingRow) -> (lines: Vec<String>)
    ensures
        lines.deep_view() == binding_lines(row@),
{
    let ghost view = row@;
    let mut lines: Vec<String> = Vec::new();
    let mut first = " - binding ".to_owned();
    first.append(row.source.as_str());
    first.append(": ");
    first.append(row.handle.as_str());
    push_to(&mut lines, first);
    if row.base {
        push_to(&mut lines, glue("    - base object: ", or_dash(as_borrowed(&row.base_object))));
        push_to(&mut lines, glue("    - base flags: ", flags_text(&row.base_flags).as_str()));
        push_to(
            &mut lines,
            glue("    - base revision: ", or_dash(as_borrowed(&row.base_revision))),
        );
    } else {
        push_to(&mut lines, "    - base: none".to_owned());
    }
    if row.conflicted {
        push_to(
            &mut lines,
            glue(
                "    - conflicted at revision: ",
                or_dash(as_borrowed(&row.conflict_revision)),
            ),
        );
    }
    assert(lines.deep_view() =~= binding_lines(view));
    lines
}

/// What is said of an item, line by line.
fn item_text(row: &ItemRow) -> (lines: Vec<String>)
    ensures
        lines.deep_view() == item_lines(row@),
{
    let ghost view = row@;
    let mut lines: Vec<String> = Vec::new();
    let mut first = "Item ".to_owned();
    push_signed(&mut first, row.seq);
    first.append(" in ");
    first.append(row.collection.as_str());
    push_to(&mut lines, first);
    push_to(&mut lines, glue(" - link id: ", row.link_id.as_str()));
    push_to(&mut lines, glue(" - flags: ", flags_text(&row.flags).as_str()));
    push_to(&mut lines, glue(" - level: ", row.level.as_str()));
    push_to(&mut lines, glue(" - object: ", or_dash(as_borrowed(&row.object))));
    if let Some(size) = row.size {
        push_to(&mut lines, glue(" - size: ", bytes(size).as_str()));
    }
    if let Some(at) = &row.retained_at {
        push_to(&mut lines, glue(" - retained at: ", at.as_str()));
        push_to(&mut lines, glue(" - retained by: ", or_dash(as_borrowed(&row.retained_by))));
    }
    push_to(&mut lines, glue(" - meta: ", or_dash(as_borrowed(&row.meta))));
    assert(lines.deep_view() =~= item_lines(view));
    lines
}

/// What is said of bindings, one after another.
fn bindings_text(rows: &Vec<BindingRow>) -> (lines: Vec<String>)
    ensures
        lines.deep_view() == all_binding_lines(rows.deep_view()),
{
    let ghost all = rows.deep_view();
    let mut lines: Vec<String> = Vec::new();
    let mut i: usize = 0;
    assert(lines.deep_view() =~= Seq::empty());
    while i < rows.len()
        invariant
            i <= rows.len(),
            all == rows.deep_view(),
            lines.deep_view() == all_binding_lines(all.take(i as int)),
        decreases rows.len() - i,
    {
        proof {
            assert(all.take(i + 1).drop_last() =~= all.take(i as int));
            assert(all.take(i + 1).last() == rows@[i as int]@);
        }
        extend_with(&mut lines, binding_text(&rows[i]));
        i = i + 1;
    }
    assert(all.take(i as int) =~= all);
    lines
}

impl ItemShowOutput {
    /// What is said of the item, line by line.
    pub fn lines(&self) -> (lines: Vec<String>)
        ensures
            lines.deep_view() == show_lines(self@.placements),
    {
        let ghost all = self@.placements;
        let mut lines: Vec<String> = Vec::new();
        let mut i: usize = 0;
        assert(lines.deep_view() =~= Seq::empty());
        while i < self.placements.len()
            invariant
                i <= self.placements.len(),
                all == self.placements.deep_view(),
                lines.deep_view() == show_lines(all.take(i as int)),
            decreases self.placements.len() - i,
        {
            let ghost before = lines.deep_view();
            proof {
                assert(all.take(i + 1).drop_last() =~= all.take(i as int));
                assert(all.take(i + 1).last() == self.placements@[i as int]@);
            }
            if i > 0 {
                let blank = String::new();
                assert(blank@ =~= Seq::<char>::empty());
                push_to(&mut lines, blank);
                assert(lines.deep_view() =~= before + seq![Seq::<char>::empty()]);
            } else {
                assert(lines.deep_view() =~= before + Seq::<Text>::empty());
            }
            extend_with(&mut lines, item_text(&self.placements[i].item));
            extend_with(&mut lines, bindings_text(&self.placements[i].bindings));
            i = i + 1;
        }
        assert(all.take(i as int) =~= all);
        lines
    }
}

/// The collections of what a lookup found.
pub open spec fn places_of(found: Seq<FoundView>) -> Seq<Text> {
    found.map_values(|x: FoundView| x.collection)
}

/// The collections of what a lookup found.
fn places(list: &Vec<Found>) -> (out: Vec<String>)
    ensures
        out.deep_view() == list.deep_view().map_values(|x: FoundView| x.collection),
{
    let ghost all = list.deep_view();
    let ghost told = |x: FoundView| x.collection;
    let mut out: Vec<String> = Vec::new();
    let mut i: usize = 0;
    assert(out.deep_view() =~= all.take(0).map_values(told));
    while i < list.len()
        invariant
            i <= list.len(),
            all == list.deep_view(),
            told == (|x: FoundView| x.collection),
            out.deep_view() == all.take(i as int).map_values(told),
        decreases list.len() - i,
    {
        assert(all[i as int] == list@[i as int].deep_view());
        push_to(&mut out, list[i].collection.clone());
        assert(out.deep_view() =~= all.take(i + 1).map_values(told));
        i = i + 1;
    }
    assert(all.take(i as int) =~= all);
    out
}

/// What is said of a public id nothing holds.
pub open spec fn unknown_item(seq: i64) -> Text {
    "no item with seq "@ + signed_text(seq as int) + " in this store"@
}

/// Reduces a lookup to exactly one placement, or explains the ambiguity.
pub fn one(found: &Vec<Found>, seq: i64) -> (only: Result<Found, String>)
    ensures
        match only {
            Ok(only) => found.len() == 1 && only@ == found.deep_view()[0],
            Err(message) => found.len() != 1 && message@ == if found.len() == 0 {
                unknown_item(seq)
            } else {
                "seq "@ + signed_text(seq as int) + " is placed in several collections ("@
                    + joined(places_of(found.deep_view()), ", "@)
                    + "): pick one with --collection"@
            },
        },
{
    if found.len() == 1 {
        return Ok(found[0].clone());
    }
    if found.len() == 0 {
        let mut message = "no item with seq ".to_owned();
        push_signed(&mut message, seq);
        message.append(" in this store");
        return Err(message);
    }
    let mut message = "seq ".to_owned();
    push_signed(&mut message, seq);
    message.append(" is placed in several collections (");
    message.append(join(&places(found), ", ").as_str());
    message.append("): pick one with --collection");
    Err(message)
}

/// The action that brings a retained item back: it is rebuilt from what the
/// retained row still holds. A live item is refused.
pub fn restore_action(found: &Found) -> (action: Result<PimdirAction, String>)
    ensures
        match action {
            Ok(action) => found@.item.retention is Some && action@ == (ActionView::Add {
                link_id: Some(found@.item.link_id),
                flags: found@.item.flags,
                object: found@.item.object,
                handle: None,
            }),
            Err(message) => found@.item.retention is None && message@ == "seq "@ + signed_text(
                found@.item.seq as int,
            ) + " is already live in "@ + found@.collection
                + ": only a retained item can be restored"@,
        },
{
    if found.item.retention.is_none() {
        let mut message = "seq ".to_owned();
        push_signed(&mut message, found.item.seq);
        message.append(" is already live in ");
        message.append(found.collection.as_str());
        message.append(": only a retained item can be restored");
        return Err(message);
    }
    Ok(
        PimdirAction::Add {
            link_id: Some(found.item.link_id.clone()),
            flags: found.item.flags.clone(),
            object: found.item.object.clone(),
            handle: None,
        },
    )
}

/// What became of a restore.
#[derive(Clone, Copy, Debug, PartialEq, Eq, Structural)]
pub enum RestoreStatus {
    /// The action was applied and the item is live again.
    Applied,
    /// Another writer holds the store lock, so the action waits in the
    /// queue.
    Queued,
    /// The drain ran and the item is still not live: the action was
    /// refused.
    Refused,
}

/// Tells what became of a restore: queued where the owner role was not free
/// or the drain met a writer, else by whether the item is live again, the
/// only trustworthy proof that the action landed.
pub fn restore_status(drained: bool, live: bool) -> (status: RestoreStatus)
    ensures
        status == if !drained {
            RestoreStatus::Queued
        } else if live {
            RestoreStatus::Applied
        } else {
            RestoreStatus::Refused
        },
{
    if !drained {
        RestoreStatus::Queued
    } else if live {
        RestoreStatus::Applied
    } else {
        RestoreStatus::Refused
    }
}

/// The `item restore` output.
#[derive(Debug, PartialEq, Eq)]
pub struct ItemRestoreOutput {
    /// The restored item.
    pub seq: i64,
    /// The collection it returns to.
    pub collection: String,
    /// Its cross-source link id.
    pub link_id: String,
    /// The queue row the restore was appended as.
    pub action: i64,
    /// What became of that row.
    pub status: RestoreStatus,
}

impl ItemRestoreOutput {
    /// What the verb says.
    pub fn line(&self) -> (text: String)
        ensures
            text@ == match self.status {
                RestoreStatus::Applied => "Restored item "@ + signed_text(self.seq as int)
                    + " into "@ + self.collection@ + " (applied)"@,
                RestoreStatus::Queued => "Restore of item "@ + signed_text(self.seq as int)
                    + " into "@ + self.collection@ + " queued as action "@ + signed_text(
                    self.action as int,
                ) + ": another writer holds the store lock, so it applies at the next sync"@,
                RestoreStatus::Refused => "Restore of item "@ + signed_text(self.seq as int)
                    + " into "@ + self.collection@
                    + " was not applied: see `pimdir queue list --parked`"@,
            },
    {
        let mut text = match self.status {
            RestoreStatus::Applied => "Restored item ".to_owned(),
            _ => "Restore of item ".to_owned(),
        };
        push_signed(&mut text, self.seq);
        text.append(" into ");
        text.append(self.collection.as_str());
        match self.status {
            RestoreStatus::Applied => text.append(" (applied)"),
            RestoreStatus::Queued => {
                text.append(" queued as action ");
                push_signed(&mut text, self.action);
                text.append(": another writer holds the store lock, so it applies at the next sync");
            },
            RestoreStatus::Refused => text.append(
                " was not applied: see `pimdir queue list --parked`",
            ),
        }
        text
    }
}

/// The `item export --output` output.
#[derive(Debug, PartialEq, Eq)]
pub struct ItemExportOutput {
    /// The exported item.
    pub seq: i64,
    /// The collection it was read from.
    pub collection: String,
    /// The body's content hash.
    pub hash: String,
    /// How many bytes were written.
    pub bytes: u64,
    /// Where they were written.
    pub path: String,
}

impl ItemExportOutput {
    /// What the verb says.
    pub fn line(&self) -> (text: String)
        ensures
            text@ == "Wrote "@ + bytes_text(self.bytes as nat) + " of item "@ + signed_text(
                self.seq as int,
            ) + " to "@ + self.path@,
    {
        let mut text = "Wrote ".to_owned();
        text.append(bytes(self.bytes).as_str());
        text.append(" of item ");
        push_signed(&mut text, self.seq);
        text.append(" to ");
        text.append(self.path.as_str());
        text
    }
}

/// The body of a located item, or why there is none to export.
pub fn export_body(found: &Found) -> (hash: Result<String, String>)
    ensures
        match hash {
            Ok(hash) => found@.item.object == Some(hash@),
            Err(message) => found@.item.object is None && message@ == "seq "@ + signed_text(
                found@.item.seq as int,
            ) + " holds no body in "@ + found@.collection + " (its detail level is "@ + level_text(
                found@.item.level,
            ) + ")"@,
        },
{
    match &found.item.object {
        Some(hash) => Ok(hash.0.clone()),
        None => {
            let mut message = "seq ".to_owned();
            push_signed(&mut message, found.item.seq);
            message.append(" holds no body in ");
            message.append(found.collection.as_str());
            message.append(" (its detail level is ");
            message.append(level_name(found.item.level));
            message.append(")");
            Err(message)
        },
    }
}

/// The `item purge` output.
#[derive(Debug, PartialEq, Eq)]
pub struct ItemPurgeOutput {
    /// The cutoff a time-based purge used, `None` for a single item.
    pub cutoff: Option<String>,
    /// How many items were destroyed.
    pub items: usize,
}

impl ItemPurgeOutput {
    /// What the verb says.
    pub fn lines(&self) -> (lines: Vec<String>)
        ensures
            lines.deep_view() == seq!["Purged "@ + decimal_text(self.items as nat) + " item(s)"@]
                + if self.items > 0 {
                seq!["Run `pimdir gc` to reclaim the bodies they released"@]
            } else {
                Seq::empty()
            },
    {
        let mut lines: Vec<String> = Vec::new();
        let mut first = "Purged ".to_owned();
        first.append(count_text(self.items).as_str());
        first.append(" item(s)");
        push_to(&mut lines, first);
        if self.items > 0 {
            push_to(&mut lines, "Run `pimdir gc` to reclaim the bodies they released".to_owned());
        }
        assert(lines.deep_view() =~= seq![
            "Purged "@ + decimal_text(self.items as nat) + " item(s)"@,
        ] + if self.items > 0 {
            seq!["Run `pimdir gc` to reclaim the bodies they released"@]
        } else {
            Seq::empty()
        });
        lines
    }

    /// What the verb asks before it destroys every item retained before a
    /// cutoff: what is at stake, where a preview could tell.
    pub fn question(cutoff: &str, preview: Option<(u64, u64)>) -> (text: String)
        ensures
            text@ == match preview {
                Some((items, size)) => "Destroy "@ + decimal_text(items as nat)
                    + " retained item(s) for good, releasing up to "@ + bytes_text(size as nat)
                    + "?"@,
                None => "Destroy every item retained before "@ + cutoff@ + " for good?"@,
            },
    {
        match preview {
            Some((items, size)) => {
                let mut text = "Destroy ".to_owned();
                text.append(decimal(items).as_str());
                text.append(" retained item(s) for good, releasing up to ");
                text.append(bytes(size).as_str());
                text.append("?");
                text
            },
            None => {
                let mut text = "Destroy every item retained before ".to_owned();
                text.append(cutoff);
                text.append(" for good?");
                text
            },
        }
    }

    /// What the verb asks before it destroys one retained item; a live one
    /// is refused.
    pub fn question_one(found: &Found) -> (text: Result<String, String>)
        ensures
            match text {
                Ok(question) => found@.item.retention matches Some(retention) && question@
                    == "Destroy retained item "@ + signed_text(found@.item.seq as int) + " ("@
                    + bytes_text(
                    match retention.size {
                        Some(size) => size as nat,
                        None => 0,
                    },
                ) + ") in "@ + found@.collection + " for good?"@,
                Err(message) => found@.item.retention is None && message@ == "seq "@ + signed_text(
                    found@.item.seq as int,
                ) + " is live in "@ + found@.collection
                    + ": purge only destroys retained items, remove it first"@,
            },
    {
        match &found.item.retention {
            Some(retention) => {
                let size: u64 = match retention.size {
                    Some(size) => size,
                    None => 0,
                };
                let mut text = "Destroy retained item ".to_owned();
                push_signed(&mut text, found.item.seq);
                text.append(" (");
                text.append(bytes(size).as_str());
                text.append(") in ");
                text.append(found.collection.as_str());
                text.append(" for good?");
                Ok(text)
            },
            None => {
                let mut message = "seq ".to_owned();
                push_signed(&mut message, found.item.seq);
                message.append(" is live in ");
                message.append(found.collection.as_str());
                message.append(": purge only destroys retained items, remove it first");
                Err(message)
            },
        }
    }
}

/// A row of a listing tells its item.
pub proof fn lemma_a_listed_row_is_its_item(collection: Text, item: ItemView, meta: Option<Text>)
    ensures
        ({
            let row = row_of(collection, item, meta);
            &&& row.collection == collection
            &&& row.seq == item.seq
            &&& row.link_id == item.link_id
            &&& row.flags is Some <==> item.flags is Some
            &&& row.object == item.object
            &&& row.meta == meta
            &&& item.retention matches Some(retention) ==> row.retained_at == Some(retention.at)
                && row.retained_by == retention.by && row.size == retention.size
            &&& item.retention is None ==> row.retained_at is None && row.retained_by is None
                && row.size is None
        }),
        level_text(PimdirLevel::Probed) == "probed"@,
        level_text(PimdirLevel::Meta) == "meta"@,
        level_text(PimdirLevel::Full) == "full"@,
{
}

/// A page holds the first rows asked for, at least one, and says where the
/// next starts exactly where rows are left: past the last row it shows,
/// by link id, and by public id where the retained are listed.
pub proof fn lemma_a_page_says_where_the_next_starts(
    collection: Text,
    retained: bool,
    rows: Seq<ItemRowView>,
    limit: nat,
)
    ensures
        ({
            let page = page_of(collection, retained, rows, limit);
            let asked = if limit == 0 {
                1int
            } else {
                limit as int
            };
            &&& page.collection == collection
            &&& page.retained == retained
            &&& rows.len() <= asked ==> page.items == rows && page.next is None
            &&& rows.len() > asked ==> page.items.len() == asked && page.items.is_prefix_of(rows)
                && page.next == Some(
                if retained {
                    signed_text(page.items.last().seq as int)
                } else {
                    page.items.last().link_id
                },
            )
        }),
{
    let page = page_of(collection, retained, rows, limit);
    let asked = if limit == 0 {
        1int
    } else {
        limit as int
    };
    if rows.len() > asked {
        assert(rows.take(asked) =~= rows.subrange(0, asked));
        assert(page.items.last() == rows[asked - 1]);
    }
}

/// A table of items has one cell under each heading.
pub proof fn lemma_an_item_row_fills_its_table(row: ItemRowView, retained: bool)
    ensures
        item_cells(row, retained).len() == items_header(retained).len(),
        item_cells(row, retained)[0] == signed_text(row.seq as int),
        item_cells(row, retained)[1] == row.link_id,
        item_cells(row, retained)[3] == row.level,
        row.object matches Some(hash) ==> item_cells(row, retained)[4] == hash,
        retained && row.retained_at is Some ==> item_cells(row, retained)[5] == row.retained_at->0,
        retained && row.retained_by is Some ==> item_cells(row, retained)[6] == row.retained_by->0,
{
}

/// A shown binding tells the binding: its source and handle, what its base
/// held where it has one, and whether it is in conflict, at which revision.
pub proof fn lemma_a_shown_binding_tells_the_binding(source: Text, binding: BindingView)
    ensures
        ({
            let row = binding_row(source, binding);
            &&& row.source == source
            &&& row.handle == binding.handle
            &&& row.base <==> binding.base is Some
            &&& binding.base matches Some(base) ==> row.base_object == base.object
                && row.base_revision == base.revision && (row.base_flags is Some <==> base.flags
                is Some)
            &&& binding.base is None ==> row.base_object is None && row.base_revision is None
                && row.base_flags is None
            &&& row.conflicted == binding.conflicted
            &&& row.conflict_revision == binding.conflict_revision
        }),
{
}

} // verus!
