//! # The operator tool's statements
//!
//! The statements behind `pimdir check` and `store info`: nothing on a
//! profile's path, so another reader of the format needs none of them.

use crate::scan::{is_white, trim, trim_end, trim_start};
use crate::text::Text;
use vstd::prelude::*;
use vstd::string::*;

verus! {

/// How many objects are indexed and what they weigh.
pub const OBJECT_STATS: &'static str = "SELECT count(*), coalesce(sum(size), 0) FROM objects;";

/// The bytes held by objects at least one live item binds.
pub const LIVE_BYTES: &'static str = "SELECT coalesce(sum(size), 0) FROM objects WHERE hash IN\n(SELECT object_hash FROM items WHERE object_hash IS NOT NULL AND retained_at IS NULL);";

/// One object's stored size.
pub const OBJECT_SIZE: &'static str = "SELECT size FROM objects WHERE hash = :hash;";

/// What a purge with this cutoff would retire, and what its bodies weigh.
pub const COUNT_RETAINED_BEFORE: &'static str = "SELECT count(*), coalesce(sum(o.size), 0) FROM items i\nLEFT JOIN objects o ON o.hash = i.object_hash\nWHERE i.retained_at IS NOT NULL AND i.retained_at < :cutoff;";

/// The objects whose stored refcount disagrees with the five pointer columns.
pub const REFCOUNT_DRIFT: &'static str = "WITH refs(hash) AS (\n  SELECT object_hash FROM items WHERE object_hash IS NOT NULL\n  UNION ALL SELECT conflict_object FROM items WHERE conflict_object IS NOT NULL\n  UNION ALL SELECT base_object FROM bindings WHERE base_object IS NOT NULL\n  UNION ALL SELECT conflict_object FROM bindings WHERE conflict_object IS NOT NULL\n  UNION ALL SELECT object_hash FROM queue WHERE object_hash IS NOT NULL\n), counted(hash, n) AS (SELECT hash, count(*) FROM refs GROUP BY hash)\nSELECT o.hash, o.refcount, coalesce(c.n, 0) FROM objects o\nLEFT JOIN counted c ON c.hash = o.hash\nWHERE o.refcount != coalesce(c.n, 0) ORDER BY o.hash;";

/// How many minted keys each collection holds; `GLOB` since `LIKE`
/// is case-insensitive over ASCII.
pub const MINTED_KEYS: &'static str = "SELECT collection, count(*) FROM items\nWHERE link_id GLOB 'dup:*' AND deleted = 0 AND retained_at IS NULL\nGROUP BY collection ORDER BY collection;";

/// The bindings whose item is gone, the one dangling row a repair clears.
pub const DANGLING_BINDINGS: &'static str = "SELECT b.collection, b.link_id, b.source FROM bindings b\nWHERE NOT EXISTS (SELECT 1 FROM items i\n  WHERE i.collection = b.collection AND i.link_id = b.link_id)\nORDER BY b.collection, b.link_id, b.source;";

/// The items whose body is not indexed; reported, never repaired.
pub const DANGLING_ITEM_OBJECTS: &'static str = "SELECT collection, link_id, object_hash FROM items\nWHERE object_hash IS NOT NULL AND object_hash NOT IN (SELECT hash FROM objects)\nORDER BY collection, link_id;";

/// The queue rows whose body is not indexed; reported, never repaired.
pub const DANGLING_QUEUE_OBJECTS: &'static str = "SELECT id, collection, object_hash FROM queue\nWHERE object_hash IS NOT NULL AND object_hash NOT IN (SELECT hash FROM objects)\nORDER BY id;";

/// Deletes the bindings whose item is gone: unreachable rows, and the one
/// dangling row a repair can clear without guessing.
pub const DELETE_DANGLING_BINDINGS: &'static str = "DELETE FROM bindings WHERE NOT EXISTS (\n  SELECT 1 FROM items i\n  WHERE i.collection = bindings.collection AND i.link_id = bindings.link_id);";

/// Every statement of the operator tool's own, paired with its constant
/// name.
pub open spec fn statements() -> Seq<(Text, Text)> {
    seq![
        ("OBJECT_STATS"@, OBJECT_STATS@),
        ("LIVE_BYTES"@, LIVE_BYTES@),
        ("OBJECT_SIZE"@, OBJECT_SIZE@),
        ("COUNT_RETAINED_BEFORE"@, COUNT_RETAINED_BEFORE@),
        ("REFCOUNT_DRIFT"@, REFCOUNT_DRIFT@),
        ("MINTED_KEYS"@, MINTED_KEYS@),
        ("DANGLING_BINDINGS"@, DANGLING_BINDINGS@),
        ("DANGLING_ITEM_OBJECTS"@, DANGLING_ITEM_OBJECTS@),
        ("DANGLING_QUEUE_OBJECTS"@, DANGLING_QUEUE_OBJECTS@),
        ("DELETE_DANGLING_BINDINGS"@, DELETE_DANGLING_BINDINGS@),
    ]
}

/// What a list of named statements says, by value.
pub open spec fn entries(list: Seq<(&'static str, &'static str)>) -> Seq<(Text, Text)> {
    list.map_values(|entry: (&'static str, &'static str)| (entry.0@, entry.1@))
}

/// Every statement of the operator tool's own, paired with its constant
/// name.
pub fn all() -> (list: Vec<(&'static str, &'static str)>)
    ensures
        entries(list@) == statements(),
{
    let mut list: Vec<(&'static str, &'static str)> = Vec::new();
    list.push(("OBJECT_STATS", OBJECT_STATS));
    list.push(("LIVE_BYTES", LIVE_BYTES));
    list.push(("OBJECT_SIZE", OBJECT_SIZE));
    list.push(("COUNT_RETAINED_BEFORE", COUNT_RETAINED_BEFORE));
    list.push(("REFCOUNT_DRIFT", REFCOUNT_DRIFT));
    list.push(("MINTED_KEYS", MINTED_KEYS));
    list.push(("DANGLING_BINDINGS", DANGLING_BINDINGS));
    list.push(("DANGLING_ITEM_OBJECTS", DANGLING_ITEM_OBJECTS));
    list.push(("DANGLING_QUEUE_OBJECTS", DANGLING_QUEUE_OBJECTS));
    list.push(("DELETE_DANGLING_BINDINGS", DELETE_DANGLING_BINDINGS));
    assert(entries(list@) =~= statements());
    list
}

/// Every statement, the canonical ones a store runs on and then the operator
/// tool's own, paired with its name.
pub fn all_with(canonical: &Vec<(&'static str, &'static str)>) -> (list: Vec<
    (&'static str, &'static str),
>)
    ensures
        entries(list@) == entries(canonical@) + statements(),
{
    let own = all();
    let mut list: Vec<(&'static str, &'static str)> = Vec::new();
    let mut i: usize = 0;
    while i < canonical.len()
        invariant
            i <= canonical.len(),
            entries(list@) =~= entries(canonical@).take(i as int),
        decreases canonical.len() - i,
    {
        let ghost before = list@;
        list.push(canonical[i]);
        assert(entries(list@) =~= entries(before).push(entries(canonical@)[i as int]));
        i = i + 1;
    }
    let mut k: usize = 0;
    while k < own.len()
        invariant
            k <= own.len(),
            entries(list@) =~= entries(canonical@) + entries(own@).take(k as int),
        decreases own.len() - k,
    {
        let ghost before = list@;
        list.push(own[k]);
        assert(entries(list@) =~= entries(before).push(entries(own@)[k as int]));
        k = k + 1;
    }
    assert(entries(own@).take(k as int) =~= statements());
    list
}

/// No statement is declared twice.
pub proof fn lemma_every_name_is_unique(i: int, j: int)
    requires
        0 <= i < j < statements().len(),
    ensures
        statements()[i].0 != statements()[j].0,
{
    reveal_strlit("OBJECT_STATS");
    reveal_strlit("LIVE_BYTES");
    reveal_strlit("OBJECT_SIZE");
    reveal_strlit("COUNT_RETAINED_BEFORE");
    reveal_strlit("REFCOUNT_DRIFT");
    reveal_strlit("MINTED_KEYS");
    reveal_strlit("DANGLING_BINDINGS");
    reveal_strlit("DANGLING_ITEM_OBJECTS");
    reveal_strlit("DANGLING_QUEUE_OBJECTS");
    reveal_strlit("DELETE_DANGLING_BINDINGS");
    assert("OBJECT_STATS"@.len() == 12);
    assert("LIVE_BYTES"@.len() == 10);
    assert("OBJECT_SIZE"@.len() == 11);
    assert("COUNT_RETAINED_BEFORE"@.len() == 21);
    assert("REFCOUNT_DRIFT"@.len() == 14);
    assert("MINTED_KEYS"@.len() == 11);
    assert("DANGLING_BINDINGS"@.len() == 17);
    assert("DANGLING_ITEM_OBJECTS"@.len() == 21);
    assert("DANGLING_QUEUE_OBJECTS"@.len() == 22);
    assert("DELETE_DANGLING_BINDINGS"@.len() == 24);
    assert("OBJECT_SIZE"@[0] != "MINTED_KEYS"@[0]);
    assert("COUNT_RETAINED_BEFORE"@[0] != "DANGLING_ITEM_OBJECTS"@[0]);
}

/// Whether a statement says nothing: it is empty once trimmed.
pub open spec fn is_blank(sql: Text) -> bool {
    trim(sql).len() == 0
}

proof fn lemma_trim_keeps_the_first(text: Text)
    requires
        text.len() > 0,
        !is_white(text[0]),
    ensures
        trim_end(text).len() > 0,
    decreases text.len(),
{
    if is_white(text.last()) {
        assert(text.drop_last()[0] == text[0]);
        lemma_trim_keeps_the_first(text.drop_last());
    }
}

proof fn lemma_not_blank(sql: Text)
    requires
        sql.len() > 0,
        sql[0] == 'S' || sql[0] == 'W' || sql[0] == 'D',
    ensures
        !is_blank(sql),
{
    assert(trim_start(sql) == sql);
    lemma_trim_keeps_the_first(sql);
}

/// No statement is empty, even once trimmed.
pub proof fn lemma_no_statement_is_blank(i: int)
    requires
        0 <= i < statements().len(),
    ensures
        !is_blank(statements()[i].1),
{
    reveal_strlit("SELECT count(*), coalesce(sum(size), 0) FROM objects;");
    reveal_strlit("SELECT coalesce(sum(size), 0) FROM objects WHERE hash IN\n(SELECT object_hash FROM items WHERE object_hash IS NOT NULL AND retained_at IS NULL);");
    reveal_strlit("SELECT size FROM objects WHERE hash = :hash;");
    reveal_strlit("SELECT count(*), coalesce(sum(o.size), 0) FROM items i\nLEFT JOIN objects o ON o.hash = i.object_hash\nWHERE i.retained_at IS NOT NULL AND i.retained_at < :cutoff;");
    reveal_strlit("WITH refs(hash) AS (\n  SELECT object_hash FROM items WHERE object_hash IS NOT NULL\n  UNION ALL SELECT conflict_object FROM items WHERE conflict_object IS NOT NULL\n  UNION ALL SELECT base_object FROM bindings WHERE base_object IS NOT NULL\n  UNION ALL SELECT conflict_object FROM bindings WHERE conflict_object IS NOT NULL\n  UNION ALL SELECT object_hash FROM queue WHERE object_hash IS NOT NULL\n), counted(hash, n) AS (SELECT hash, count(*) FROM refs GROUP BY hash)\nSELECT o.hash, o.refcount, coalesce(c.n, 0) FROM objects o\nLEFT JOIN counted c ON c.hash = o.hash\nWHERE o.refcount != coalesce(c.n, 0) ORDER BY o.hash;");
    reveal_strlit("SELECT collection, count(*) FROM items\nWHERE link_id GLOB 'dup:*' AND deleted = 0 AND retained_at IS NULL\nGROUP BY collection ORDER BY collection;");
    reveal_strlit("SELECT b.collection, b.link_id, b.source FROM bindings b\nWHERE NOT EXISTS (SELECT 1 FROM items i\n  WHERE i.collection = b.collection AND i.link_id = b.link_id)\nORDER BY b.collection, b.link_id, b.source;");
    reveal_strlit("SELECT collection, link_id, object_hash FROM items\nWHERE object_hash IS NOT NULL AND object_hash NOT IN (SELECT hash FROM objects)\nORDER BY collection, link_id;");
    reveal_strlit("SELECT id, collection, object_hash FROM queue\nWHERE object_hash IS NOT NULL AND object_hash NOT IN (SELECT hash FROM objects)\nORDER BY id;");
    reveal_strlit("DELETE FROM bindings WHERE NOT EXISTS (\n  SELECT 1 FROM items i\n  WHERE i.collection = bindings.collection AND i.link_id = bindings.link_id);");
    lemma_not_blank(statements()[i].1);
}

/// A whole list is as sound as its canonical part: where that one names no
/// statement twice, none under a name of the operator tool's, and holds no
/// blank one, the whole list names none twice and holds no blank one.
pub proof fn lemma_a_whole_list_is_sound(canonical: Seq<(Text, Text)>, i: int, j: int)
    requires
        forall|a: int, b: int|
            0 <= a < b < canonical.len() ==> (#[trigger] canonical[a]).0 != (
            #[trigger] canonical[b]).0,
        forall|a: int, b: int|
            0 <= a < canonical.len() && 0 <= b < statements().len() ==> (
            #[trigger] canonical[a]).0 != (#[trigger] statements()[b]).0,
        forall|a: int| 0 <= a < canonical.len() ==> !is_blank((#[trigger] canonical[a]).1),
        0 <= i < j < canonical.len() + statements().len(),
    ensures
        (canonical + statements())[i].0 != (canonical + statements())[j].0,
        !is_blank((canonical + statements())[i].1),
        !is_blank((canonical + statements())[j].1),
{
    let n = canonical.len() as int;
    let whole = canonical + statements();
    if j < n {
        assert(whole[i] == canonical[i] && whole[j] == canonical[j]);
    } else {
        assert(whole[j] == statements()[j - n]);
        lemma_no_statement_is_blank(j - n);
        if i < n {
            assert(whole[i] == canonical[i]);
        } else {
            assert(whole[i] == statements()[i - n]);
            lemma_no_statement_is_blank(i - n);
            lemma_every_name_is_unique(i - n, j - n);
        }
    }
}

} // verus!
