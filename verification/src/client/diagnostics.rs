//! # Diagnostics
//!
//! What a consistency check asks about the index rather than through it:
//! whether a refcount matches the references justifying it, whether a row
//! points at something absent, what the bodies weigh.

use crate::client::reader::{count_from_column, size_of_column};
use crate::codec::{push_signed, signed_text};
use crate::list::push_to;
use crate::text::Text;
use vstd::prelude::*;
use vstd::string::*;

verus! {

/// How many objects the index holds and what they weigh.
#[derive(Clone, Copy, Debug, Eq, PartialEq)]
pub struct PimdirObjectStats {
    /// Indexed objects.
    pub count: u64,
    /// Their total size in bytes.
    pub bytes: u64,
}

impl Default for PimdirObjectStats {
    fn default() -> (stats: Self)
        ensures
            stats.count == 0,
            stats.bytes == 0,
    {
        PimdirObjectStats { count: 0, bytes: 0 }
    }
}

/// Reads a count and a weight from their columns, never below zero.
pub fn object_stats(count: i64, bytes: i64) -> (stats: PimdirObjectStats)
    ensures
        Some(stats.count) == size_of_column(Some(count)),
        Some(stats.bytes) == size_of_column(Some(bytes)),
{
    PimdirObjectStats { count: count_from_column(count), bytes: count_from_column(bytes) }
}

/// One object whose stored refcount disagrees with the references that
/// justify it: items, conflict copies, per-source bases and queue pins.
#[derive(Debug, PartialEq, Eq)]
pub struct PimdirRefcountDrift {
    /// The object's content hash.
    pub hash: String,
    /// The refcount the index stores.
    pub stored: i64,
    /// The refcount its references add up to.
    pub expected: i64,
}

/// What a [`PimdirRefcountDrift`] says, by value.
#[verifier::ext_equal]
pub struct RefcountDriftView {
    pub hash: Text,
    pub stored: i64,
    pub expected: i64,
}

impl View for PimdirRefcountDrift {
    type V = RefcountDriftView;

    open spec fn view(&self) -> RefcountDriftView {
        RefcountDriftView {
            hash: self.hash@,
            stored: self.stored,
            expected: self.expected,
        }
    }
}

impl DeepView for PimdirRefcountDrift {
    type V = RefcountDriftView;

    open spec fn deep_view(&self) -> RefcountDriftView {
        self@
    }
}

impl Clone for PimdirRefcountDrift {
    fn clone(&self) -> (copy: Self)
        ensures
            copy@ == self@,
    {
        PimdirRefcountDrift {
            hash: self.hash.clone(),
            stored: self.stored,
            expected: self.expected,
        }
    }
}

/// One binding whose source holds its identity under more than one handle,
/// so the engine cannot say which copy a change belongs to.
#[derive(Debug, PartialEq, Eq)]
pub struct PimdirAmbiguous {
    /// The owning collection.
    pub collection: String,
    /// The identity held more than once.
    pub link_id: String,
    /// The source holding it more than once.
    pub source: String,
    /// How many copies of it that source holds.
    pub copies: i64,
}

/// What a [`PimdirAmbiguous`] says, by value.
#[verifier::ext_equal]
pub struct AmbiguousView {
    pub collection: Text,
    pub link_id: Text,
    pub source: Text,
    pub copies: i64,
}

impl View for PimdirAmbiguous {
    type V = AmbiguousView;

    open spec fn view(&self) -> AmbiguousView {
        AmbiguousView {
            collection: self.collection@,
            link_id: self.link_id@,
            source: self.source@,
            copies: self.copies,
        }
    }
}

impl DeepView for PimdirAmbiguous {
    type V = AmbiguousView;

    open spec fn deep_view(&self) -> AmbiguousView {
        self@
    }
}

impl Clone for PimdirAmbiguous {
    fn clone(&self) -> (copy: Self)
        ensures
            copy@ == self@,
    {
        PimdirAmbiguous {
            collection: self.collection.clone(),
            link_id: self.link_id.clone(),
            source: self.source.clone(),
            copies: self.copies,
        }
    }
}

/// One row referencing something that is not there.
#[derive(Debug, PartialEq, Eq)]
pub struct PimdirDangling {
    /// What kind of row dangles: `binding`, `item-object` or `queue-object`.
    pub kind: String,
    /// The row, as an operator would name it.
    pub row: String,
    /// What it points at and cannot find.
    pub target: String,
}

/// What a [`PimdirDangling`] says, by value.
#[verifier::ext_equal]
pub struct DanglingView {
    pub kind: Text,
    pub row: Text,
    pub target: Text,
}

impl View for PimdirDangling {
    type V = DanglingView;

    open spec fn view(&self) -> DanglingView {
        DanglingView {
            kind: self.kind@,
            row: self.row@,
            target: self.target@,
        }
    }
}

impl DeepView for PimdirDangling {
    type V = DanglingView;

    open spec fn deep_view(&self) -> DanglingView {
        self@
    }
}

impl Clone for PimdirDangling {
    fn clone(&self) -> (copy: Self)
        ensures
            copy@ == self@,
    {
        PimdirDangling {
            kind: self.kind.clone(),
            row: self.row.clone(),
            target: self.target.clone(),
        }
    }
}

/// A binding whose item is gone, as an operator would name it.
pub open spec fn dangling_binding(collection: Text, link: Text, source: Text) -> DanglingView {
    DanglingView {
        kind: "binding"@,
        row: collection + "/"@ + link + " @"@ + source,
        target: "item "@ + collection + "/"@ + link,
    }
}

/// An item whose body is not indexed, as an operator would name it.
pub open spec fn dangling_item(collection: Text, link: Text, hash: Text) -> DanglingView {
    DanglingView {
        kind: "item-object"@,
        row: collection + "/"@ + link,
        target: "object "@ + hash,
    }
}

/// A queue row whose body is not indexed, as an operator would name it.
pub open spec fn dangling_queued(id: i64, collection: Text, hash: Text) -> DanglingView {
    DanglingView {
        kind: "queue-object"@,
        row: "queue "@ + signed_text(id as int) + " ("@ + collection + ")"@,
        target: "object "@ + hash,
    }
}

/// Joins two texts.
fn join(a: &str, b: &str) -> (text: String)
    ensures
        text@ == a@ + b@,
{
    let mut text = a.to_owned();
    text.append(b);
    text
}

/// The rows that dangle: first the bindings, then the items, then the
/// queue.
pub open spec fn all_dangling(
    bindings: Seq<(Text, Text, Text)>,
    items: Seq<(Text, Text, Text)>,
    queue: Seq<(i64, Text, Text)>,
) -> Seq<DanglingView> {
    bindings.map_values(|row: (Text, Text, Text)| dangling_binding(row.0, row.1, row.2))
        + items.map_values(|row: (Text, Text, Text)| dangling_item(row.0, row.1, row.2))
        + queue.map_values(|row: (i64, Text, Text)| dangling_queued(row.0, row.1, row.2))
}

/// Names every row pointing at something absent: a binding whose item is
/// gone, an item or a queue row whose object is not indexed.
///
/// Only the first is repairable; the other two still hold data, so they are
/// reported and left alone.
pub fn dangling(
    bindings: &Vec<(String, String, String)>,
    items: &Vec<(String, String, String)>,
    queue: &Vec<(i64, String, String)>,
) -> (rows: Vec<PimdirDangling>)
    ensures
        rows.deep_view() == all_dangling(
            bindings.deep_view(),
            items.deep_view(),
            queue.deep_view(),
        ),
{
    let ghost (all_bindings, all_items, all_queued) = (
        bindings.deep_view(),
        items.deep_view(),
        queue.deep_view(),
    );
    let ghost binds = |row: (Text, Text, Text)| dangling_binding(row.0, row.1, row.2);
    let ghost holds = |row: (Text, Text, Text)| dangling_item(row.0, row.1, row.2);
    let ghost queues = |row: (i64, Text, Text)| dangling_queued(row.0, row.1, row.2);
    let mut rows: Vec<PimdirDangling> = Vec::new();
    let mut i: usize = 0;
    assert(rows.deep_view() =~= all_bindings.take(0).map_values(binds));
    while i < bindings.len()
        invariant
            i <= bindings.len(),
            all_bindings == bindings.deep_view(),
            binds == (|row: (Text, Text, Text)| dangling_binding(row.0, row.1, row.2)),
            rows.deep_view() == all_bindings.take(i as int).map_values(binds),
        decreases bindings.len() - i,
    {
        let (collection, link, source) = (&bindings[i].0, &bindings[i].1, &bindings[i].2);
        assert(all_bindings[i as int] == (collection@, link@, source@));
        let place = join(join(collection, "/").as_str(), link);
        let row = PimdirDangling {
            kind: "binding".to_owned(),
            row: join(join(place.as_str(), " @").as_str(), source),
            target: join(join(join("item ", collection).as_str(), "/").as_str(), link),
        };
        push_to(&mut rows, row);
        assert(rows.deep_view() =~= all_bindings.take(i + 1).map_values(binds));
        i = i + 1;
    }
    assert(all_bindings.take(i as int) =~= all_bindings);
    let ghost first = rows.deep_view();
    let mut k: usize = 0;
    assert(first + all_items.take(0).map_values(holds) =~= first);
    while k < items.len()
        invariant
            k <= items.len(),
            all_items == items.deep_view(),
            holds == (|row: (Text, Text, Text)| dangling_item(row.0, row.1, row.2)),
            rows.deep_view() == first + all_items.take(k as int).map_values(holds),
        decreases items.len() - k,
    {
        let (collection, link, hash) = (&items[k].0, &items[k].1, &items[k].2);
        assert(all_items[k as int] == (collection@, link@, hash@));
        let row = PimdirDangling {
            kind: "item-object".to_owned(),
            row: join(join(collection, "/").as_str(), link),
            target: join("object ", hash),
        };
        push_to(&mut rows, row);
        assert(rows.deep_view() =~= first + all_items.take(k + 1).map_values(holds));
        k = k + 1;
    }
    assert(all_items.take(k as int) =~= all_items);
    let ghost second = rows.deep_view();
    let mut m: usize = 0;
    assert(second + all_queued.take(0).map_values(queues) =~= second);
    while m < queue.len()
        invariant
            m <= queue.len(),
            all_queued == queue.deep_view(),
            queues == (|row: (i64, Text, Text)| dangling_queued(row.0, row.1, row.2)),
            rows.deep_view() == second + all_queued.take(m as int).map_values(queues),
        decreases queue.len() - m,
    {
        let (id, collection, hash) = (queue[m].0, &queue[m].1, &queue[m].2);
        assert(all_queued[m as int] == (id, collection@, hash@));
        let mut name = "queue ".to_owned();
        push_signed(&mut name, id);
        name.append(" (");
        name.append(collection.as_str());
        name.append(")");
        let row = PimdirDangling {
            kind: "queue-object".to_owned(),
            row: name,
            target: join("object ", hash),
        };
        push_to(&mut rows, row);
        assert(rows.deep_view() =~= second + all_queued.take(m + 1).map_values(queues));
        m = m + 1;
    }
    assert(all_queued.take(m as int) =~= all_queued);
    rows
}

/// Every dangling reference is told: one per row that points at nothing,
/// the bindings first, then the items, then the queue.
pub proof fn lemma_every_dangling_row_is_told(
    bindings: Seq<(Text, Text, Text)>,
    items: Seq<(Text, Text, Text)>,
    queue: Seq<(i64, Text, Text)>,
    i: int,
)
    ensures
        ({
            let all = all_dangling(bindings, items, queue);
            let first = bindings.len() as int;
            let second = first + items.len();
            &&& all.len() == second + queue.len()
            &&& 0 <= i < bindings.len() ==> all[i].kind == "binding"@ && all[i].row
                == bindings[i].0 + "/"@ + bindings[i].1 + " @"@ + bindings[i].2 && all[i].target
                == "item "@ + bindings[i].0 + "/"@ + bindings[i].1
            &&& 0 <= i < items.len() ==> all[first + i].kind == "item-object"@ && all[first + i].row
                == items[i].0 + "/"@ + items[i].1 && all[first + i].target == "object "@
                + items[i].2
            &&& 0 <= i < queue.len() ==> all[second + i].kind == "queue-object"@ && all[second
                + i].row == "queue "@ + signed_text(queue[i].0 as int) + " ("@ + queue[i].1 + ")"@
                && all[second + i].target == "object "@ + queue[i].2
        }),
{
}

} // verus!
