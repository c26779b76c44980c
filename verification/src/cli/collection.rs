//! # The `collection` verb group
//!
//! What a store holds, one row per collection.

use crate::cli::dashed;
use crate::codec::{push_signed, signed_text};
use crate::list::push_to;
use crate::scan::{chars_of, decimal, decimal_text};
use crate::text::Text;
use vstd::prelude::*;
use vstd::string::*;

verus! {

/// One collection as the listing shows it.
#[derive(Debug, PartialEq, Eq)]
pub struct CollectionRow {
    /// The stable collection id.
    pub id: String,
    /// The declared media type, empty when a sync created it before any
    /// consumer declared one.
    pub kind: String,
    /// The display name.
    pub name: String,
    /// The handle-space epoch.
    pub generation: i64,
    /// Live items.
    pub live: u64,
    /// Handles enumerated but not yet identified.
    pub probes: u64,
    /// Retained items.
    pub retained: u64,
}

/// What a [`CollectionRow`] says, by value.
#[verifier::ext_equal]
pub struct CollectionRowView {
    pub id: Text,
    pub kind: Text,
    pub name: Text,
    pub generation: i64,
    pub live: u64,
    pub probes: u64,
    pub retained: u64,
}

impl View for CollectionRow {
    type V = CollectionRowView;

    open spec fn view(&self) -> CollectionRowView {
        CollectionRowView {
            id: self.id@,
            kind: self.kind@,
            name: self.name@,
            generation: self.generation,
            live: self.live,
            probes: self.probes,
            retained: self.retained,
        }
    }
}

impl DeepView for CollectionRow {
    type V = CollectionRowView;

    open spec fn deep_view(&self) -> CollectionRowView {
        self@
    }
}

impl Clone for CollectionRow {
    fn clone(&self) -> (copy: Self)
        ensures
            copy@ == self@,
    {
        CollectionRow {
            id: self.id.clone(),
            kind: self.kind.clone(),
            name: self.name.clone(),
            generation: self.generation,
            live: self.live,
            probes: self.probes,
            retained: self.retained,
        }
    }
}

/// The `collection list` output.
#[derive(Debug, PartialEq, Eq)]
pub struct CollectionsOutput(pub Vec<CollectionRow>);

/// The listing's header.
pub open spec fn collection_header() -> Seq<Text> {
    seq!["ID"@, "KIND"@, "NAME"@, "GEN"@, "LIVE"@, "PROBED"@, "RETAINED"@]
}

/// A collection's cells.
pub open spec fn collection_cells(row: CollectionRowView) -> Seq<Text> {
    seq![
        row.id,
        dashed(
            if row.kind.len() > 0 {
                Some(row.kind)
            } else {
                None
            },
        ),
        row.name,
        signed_text(row.generation as int),
        decimal_text(row.live as nat),
        decimal_text(row.probes as nat),
        decimal_text(row.retained as nat),
    ]
}

/// A number in decimal, its sign in front.
pub(crate) fn signed(n: i64) -> (text: String)
    ensures
        text@ == signed_text(n as int),
{
    let mut text = String::new();
    push_signed(&mut text, n);
    assert(text@ =~= signed_text(n as int));
    text
}

/// A text, or a dash for an empty one.
pub(crate) fn full_or_dash(text: &String) -> (shown: String)
    ensures
        shown@ == dashed(
            if text@.len() > 0 {
                Some(text@)
            } else {
                None
            },
        ),
{
    if chars_of(text.as_str()).len() == 0 {
        "-".to_owned()
    } else {
        text.clone()
    }
}

/// The listing's header.
fn header_cells() -> (cells: Vec<String>)
    ensures
        cells.deep_view() == collection_header(),
{
    let mut cells: Vec<String> = Vec::new();
    push_to(&mut cells, "ID".to_owned());
    push_to(&mut cells, "KIND".to_owned());
    push_to(&mut cells, "NAME".to_owned());
    push_to(&mut cells, "GEN".to_owned());
    push_to(&mut cells, "LIVE".to_owned());
    push_to(&mut cells, "PROBED".to_owned());
    push_to(&mut cells, "RETAINED".to_owned());
    assert(cells.deep_view() =~= collection_header());
    cells
}

/// A collection's cells.
fn row_cells(row: &CollectionRow) -> (cells: Vec<String>)
    ensures
        cells.deep_view() == collection_cells(row@),
{
    let mut cells: Vec<String> = Vec::new();
    push_to(&mut cells, row.id.clone());
    push_to(&mut cells, full_or_dash(&row.kind));
    push_to(&mut cells, row.name.clone());
    push_to(&mut cells, signed(row.generation));
    push_to(&mut cells, decimal(row.live));
    push_to(&mut cells, decimal(row.probes));
    push_to(&mut cells, decimal(row.retained));
    assert(cells.deep_view() =~= collection_cells(row@));
    cells
}

/// Every collection's cells.
fn all_cells(list: &Vec<CollectionRow>) -> (out: Vec<Vec<String>>)
    ensures
        out.deep_view() == list.deep_view().map_values(|x: CollectionRowView| collection_cells(x)),
{
    let ghost all = list.deep_view();
    let ghost told = |x: CollectionRowView| collection_cells(x);
    let mut out: Vec<Vec<String>> = Vec::new();
    let mut i: usize = 0;
    assert(out.deep_view() =~= all.take(0).map_values(told));
    while i < list.len()
        invariant
            i <= list.len(),
            all == list.deep_view(),
            told == (|x: CollectionRowView| collection_cells(x)),
            out.deep_view() == all.take(i as int).map_values(told),
        decreases list.len() - i,
    {
        assert(all[i as int] == list@[i as int].deep_view());
        push_to(&mut out, row_cells(&list[i]));
        assert(out.deep_view() =~= all.take(i + 1).map_values(told));
        i = i + 1;
    }
    assert(all.take(i as int) =~= all);
    out
}

impl CollectionsOutput {
    /// The table of the listing, its header first; `None` for a store that
    /// holds no collection, of which [`CollectionsOutput::nothing`] tells.
    pub fn table(&self) -> (table: Option<(Vec<String>, Vec<Vec<String>>)>)
        ensures
            match table {
                Some((header, rows)) => self.0.len() > 0 && header.deep_view()
                    == collection_header() && rows.deep_view() == self.0.deep_view().map_values(
                    |x: CollectionRowView| collection_cells(x),
                ),
                None => self.0.len() == 0,
            },
    {
        if self.0.len() == 0 {
            return None;
        }
        Some((header_cells(), all_cells(&self.0)))
    }

    /// What is said of a store that holds no collection.
    pub fn nothing() -> (text: String)
        ensures
            text@ == "This store holds no collection yet"@,
    {
        "This store holds no collection yet".to_owned()
    }
}

} // verus!
