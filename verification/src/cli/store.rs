//! # The `store` verb group
//!
//! The one-screen summary of a store.

use crate::cli::{bytes, bytes_text, join, joined};
use crate::codec::{push_signed, signed_text};
use crate::list::push_to;
use crate::scan::{decimal, decimal_text};
use crate::text::Text;
use vstd::prelude::*;
use vstd::string::*;

verus! {

/// One collection's item counts.
#[derive(Debug, PartialEq, Eq)]
pub struct StoreCollectionCount {
    /// The collection id.
    pub id: String,
    /// Live items.
    pub live: u64,
    /// Retained items.
    pub retained: u64,
}

/// What a [`StoreCollectionCount`] says, by value.
#[verifier::ext_equal]
pub struct StoreCollectionCountView {
    pub id: Text,
    pub live: u64,
    pub retained: u64,
}

impl View for StoreCollectionCount {
    type V = StoreCollectionCountView;

    open spec fn view(&self) -> StoreCollectionCountView {
        StoreCollectionCountView {
            id: self.id@,
            live: self.live,
            retained: self.retained,
        }
    }
}

impl DeepView for StoreCollectionCount {
    type V = StoreCollectionCountView;

    open spec fn deep_view(&self) -> StoreCollectionCountView {
        self@
    }
}

impl Clone for StoreCollectionCount {
    fn clone(&self) -> (copy: Self)
        ensures
            copy@ == self@,
    {
        StoreCollectionCount {
            id: self.id.clone(),
            live: self.live,
            retained: self.retained,
        }
    }
}

/// The `store info` output.
#[derive(Debug, PartialEq, Eq)]
pub struct StoreInfoOutput {
    /// The store directory.
    pub path: String,
    /// The schema version this build services, which the reader verified the
    /// store to be stamped with.
    pub schema_version: i64,
    /// The sources the store has synced against.
    pub sources: Vec<String>,
    /// Per-collection counts.
    pub collections: Vec<StoreCollectionCount>,
    /// Live items, store-wide.
    pub live_items: u64,
    /// Retained items, store-wide.
    pub retained_items: u64,
    /// Indexed objects.
    pub objects: u64,
    /// What every indexed object weighs.
    pub object_bytes: u64,
    /// What the objects a live item still binds weigh.
    pub live_bytes: u64,
    /// What retention is holding, and what a purge would reclaim.
    pub retained_bytes: u64,
    /// The next change stamp the feed will draw.
    pub next_change: i64,
    /// How many rows left the store without a stamp.
    pub purges: i64,
}

/// What a [`StoreInfoOutput`] says, by value.
#[verifier::ext_equal]
pub struct StoreInfoOutputView {
    pub path: Text,
    pub schema_version: i64,
    pub sources: Seq<Text>,
    pub collections: Seq<StoreCollectionCountView>,
    pub live_items: u64,
    pub retained_items: u64,
    pub objects: u64,
    pub object_bytes: u64,
    pub live_bytes: u64,
    pub retained_bytes: u64,
    pub next_change: i64,
    pub purges: i64,
}

impl View for StoreInfoOutput {
    type V = StoreInfoOutputView;

    open spec fn view(&self) -> StoreInfoOutputView {
        StoreInfoOutputView {
            path: self.path@,
            schema_version: self.schema_version,
            sources: self.sources.deep_view(),
            collections: self.collections.deep_view(),
            live_items: self.live_items,
            retained_items: self.retained_items,
            objects: self.objects,
            object_bytes: self.object_bytes,
            live_bytes: self.live_bytes,
            retained_bytes: self.retained_bytes,
            next_change: self.next_change,
            purges: self.purges,
        }
    }
}

impl DeepView for StoreInfoOutput {
    type V = StoreInfoOutputView;

    open spec fn deep_view(&self) -> StoreInfoOutputView {
        self@
    }
}

/// The items of every collection, live and retained.
pub open spec fn totals(collections: Seq<StoreCollectionCountView>) -> (int, int)
    decreases collections.len(),
{
    if collections.len() == 0 {
        (0, 0)
    } else {
        let (live, retained) = totals(collections.drop_last());
        (live + collections.last().live, retained + collections.last().retained)
    }
}

proof fn lemma_totals_grow(collections: Seq<StoreCollectionCountView>, i: int)
    requires
        0 <= i <= collections.len(),
    ensures
        0 <= totals(collections.take(i)).0 <= totals(collections).0,
        0 <= totals(collections.take(i)).1 <= totals(collections).1,
    decreases collections.len(),
{
    if i < collections.len() {
        lemma_totals_grow(collections.drop_last(), i);
        assert(collections.drop_last().take(i) =~= collections.take(i));
    } else {
        assert(collections.take(i) =~= collections);
        if i > 0 {
            lemma_totals_grow(collections.drop_last(), i - 1);
            assert(collections.drop_last().take(i - 1) =~= collections.drop_last());
        }
    }
}

/// Adds up the items of every collection, live and retained.
pub fn count_all(collections: &Vec<StoreCollectionCount>) -> (counts: (u64, u64))
    requires
        totals(collections.deep_view()).0 <= u64::MAX,
        totals(collections.deep_view()).1 <= u64::MAX,
    ensures
        (counts.0 as int, counts.1 as int) == totals(collections.deep_view()),
{
    let ghost all = collections.deep_view();
    let mut live: u64 = 0;
    let mut retained: u64 = 0;
    let mut i: usize = 0;
    while i < collections.len()
        invariant
            i <= collections.len(),
            all == collections.deep_view(),
            totals(all).0 <= u64::MAX,
            totals(all).1 <= u64::MAX,
            (live as int, retained as int) == totals(all.take(i as int)),
        decreases collections.len() - i,
    {
        proof {
            assert(all.take(i + 1).drop_last() =~= all.take(i as int));
            assert(all.take(i + 1).last() == collections@[i as int]@);
            lemma_totals_grow(all, i + 1);
        }
        live = live + collections[i].live;
        retained = retained + collections[i].retained;
        i = i + 1;
    }
    assert(all.take(i as int) =~= all);
    (live, retained)
}

/// What the summary says, line by line, above its table.
pub open spec fn info_lines(info: StoreInfoOutputView) -> Seq<Text> {
    seq![
        "Store at "@ + info.path,
        " - schema version: "@ + signed_text(info.schema_version as int),
        " - sources: "@ + if info.sources.len() == 0 {
            "none yet"@
        } else {
            joined(info.sources, ", "@)
        },
        " - items: "@ + decimal_text(info.live_items as nat) + " live, "@ + decimal_text(
            info.retained_items as nat,
        ) + " retained"@,
        " - objects: "@ + decimal_text(info.objects as nat) + " ("@ + bytes_text(
            info.object_bytes as nat,
        ) + " total, "@ + bytes_text(info.live_bytes as nat) + " live, "@ + bytes_text(
            info.retained_bytes as nat,
        ) + " retained)"@,
        " - change feed: next stamp "@ + signed_text(info.next_change as int) + ", "@
            + signed_text(info.purges as int) + " purge(s)"@,
    ] + if info.collections.len() == 0 {
        seq![" - collections: none yet"@]
    } else {
        seq![Seq::empty()]
    }
}

/// The table's header.
pub open spec fn count_header() -> Seq<Text> {
    seq!["COLLECTION"@, "LIVE"@, "RETAINED"@]
}

/// A collection's cells.
pub open spec fn count_cells(row: StoreCollectionCountView) -> Seq<Text> {
    seq![row.id, decimal_text(row.live as nat), decimal_text(row.retained as nat)]
}

/// The table's header.
fn header_cells() -> (cells: Vec<String>)
    ensures
        cells.deep_view() == count_header(),
{
    let mut cells: Vec<String> = Vec::new();
    push_to(&mut cells, "COLLECTION".to_owned());
    push_to(&mut cells, "LIVE".to_owned());
    push_to(&mut cells, "RETAINED".to_owned());
    assert(cells.deep_view() =~= count_header());
    cells
}

/// A collection's cells.
fn row_cells(row: &StoreCollectionCount) -> (cells: Vec<String>)
    ensures
        cells.deep_view() == count_cells(row@),
{
    let mut cells: Vec<String> = Vec::new();
    push_to(&mut cells, row.id.clone());
    push_to(&mut cells, decimal(row.live));
    push_to(&mut cells, decimal(row.retained));
    assert(cells.deep_view() =~= count_cells(row@));
    cells
}

/// Every collection's cells.
fn all_cells(list: &Vec<StoreCollectionCount>) -> (out: Vec<Vec<String>>)
    ensures
        out.deep_view() == list.deep_view().map_values(|x: StoreCollectionCountView| count_cells(x)),
{
    let ghost all = list.deep_view();
    let ghost told = |x: StoreCollectionCountView| count_cells(x);
    let mut out: Vec<Vec<String>> = Vec::new();
    let mut i: usize = 0;
    assert(out.deep_view() =~= all.take(0).map_values(told));
    while i < list.len()
        invariant
            i <= list.len(),
            all == list.deep_view(),
            told == (|x: StoreCollectionCountView| count_cells(x)),
            out.deep_view() == all.take(i as int).map_values(told),
        decreases list.len() - i,
    {
        assert(all[i as int] == list@[i as int].deep_view());
        push_to(&mut out, row_cells(&list[i]));
        assert(out.deep_view() =~= all.take(i + 1).map_values(told));
        i = i + 1;
    }
    assert(all.take(i as int) =~= all);
    out
}

impl StoreInfoOutput {
    /// What the summary says, line by line, above its table; the last line
    /// is blank where a table follows.
    pub fn lines(&self) -> (lines: Vec<String>)
        ensures
            lines.deep_view() == info_lines(self@),
    {
        let ghost view = self@;
        let mut lines: Vec<String> = Vec::new();
        let mut path = "Store at ".to_owned();
        path.append(self.path.as_str());
        push_to(&mut lines, path);
        let mut version = " - schema version: ".to_owned();
        push_signed(&mut version, self.schema_version);
        push_to(&mut lines, version);
        let mut sources = " - sources: ".to_owned();
        assert(self.sources.len() == view.sources.len());
        if self.sources.len() == 0 {
            sources.append("none yet");
        } else {
            sources.append(join(&self.sources, ", ").as_str());
        }
        push_to(&mut lines, sources);
        let mut items = " - items: ".to_owned();
        items.append(decimal(self.live_items).as_str());
        items.append(" live, ");
        items.append(decimal(self.retained_items).as_str());
        items.append(" retained");
        push_to(&mut lines, items);
        let mut objects = " - objects: ".to_owned();
        objects.append(decimal(self.objects).as_str());
        objects.append(" (");
        objects.append(bytes(self.object_bytes).as_str());
        objects.append(" total, ");
        objects.append(bytes(self.live_bytes).as_str());
        objects.append(" live, ");
        objects.append(bytes(self.retained_bytes).as_str());
        objects.append(" retained)");
        push_to(&mut lines, objects);
        let mut feed = " - change feed: next stamp ".to_owned();
        push_signed(&mut feed, self.next_change);
        feed.append(", ");
        push_signed(&mut feed, self.purges);
        feed.append(" purge(s)");
        push_to(&mut lines, feed);
        assert(self.collections.len() == view.collections.len());
        if self.collections.len() == 0 {
            push_to(&mut lines, " - collections: none yet".to_owned());
        } else {
            let blank = String::new();
            assert(blank@ =~= Seq::<char>::empty());
            push_to(&mut lines, blank);
        }
        assert(lines.deep_view() =~= info_lines(view));
        lines
    }

    /// The table of counts, its header first, where there is any
    /// collection.
    pub fn table(&self) -> (table: Option<(Vec<String>, Vec<Vec<String>>)>)
        ensures
            match table {
                Some((header, rows)) => self.collections.len() > 0 && header.deep_view()
                    == count_header() && rows.deep_view()
                    == self.collections.deep_view().map_values(
                    |x: StoreCollectionCountView| count_cells(x),
                ),
                None => self.collections.len() == 0,
            },
    {
        if self.collections.len() == 0 {
            return None;
        }
        Some((header_cells(), all_cells(&self.collections)))
    }
}

/// The totals of a store are the sums over its collections.
pub proof fn lemma_the_totals_add_up(
    collections: Seq<StoreCollectionCountView>,
    more: StoreCollectionCountView,
)
    ensures
        totals(Seq::empty()) == (0int, 0int),
        totals(collections.push(more)).0 == totals(collections).0 + more.live,
        totals(collections.push(more)).1 == totals(collections).1 + more.retained,
{
    assert(collections.push(more).drop_last() =~= collections);
}

} // verus!
