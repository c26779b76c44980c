//! # Schema
//!
//! Which migrations a store still needs, and the checks refusing a store
//! this crate does not read: a newer version, disagreeing stamps, an earlier
//! draft's shape, a foreign hash.

use crate::client::{ErrorView, PimdirError};
use crate::hash::{lemma_an_algorithm_is_its_spelling, PimdirHashAlgo};
use crate::text::{text_same, Text};
use vstd::prelude::*;
use vstd::string::*;

verus! {

/// The tables the schema declares, which a store at the current version has
/// to hold whole, by place: a draft is edited in place and the version stamp
/// alone cannot tell an earlier draft's store apart.
pub open spec fn table_name(i: int) -> Text {
    if i == 0 {
        "bindings"@
    } else if i == 1 {
        "collections"@
    } else if i == 2 {
        "contact_summary"@
    } else if i == 3 {
        "event_summary"@
    } else if i == 4 {
        "item_address"@
    } else if i == 5 {
        "items"@
    } else if i == 6 {
        "journal_summary"@
    } else if i == 7 {
        "mail_summary"@
    } else if i == 8 {
        "objects"@
    } else if i == 9 {
        "probes"@
    } else if i == 10 {
        "queue"@
    } else if i == 11 {
        "sources"@
    } else if i == 12 {
        "store_meta"@
    } else {
        "task_summary"@
    }
}

/// How many tables the schema declares.
pub const TABLES: usize = 14;

/// A declared table, by place.
fn table(i: usize) -> (name: &'static str)
    requires
        i < TABLES,
    ensures
        name@ == table_name(i as int),
{
    if i == 0 {
        "bindings"
    } else if i == 1 {
        "collections"
    } else if i == 2 {
        "contact_summary"
    } else if i == 3 {
        "event_summary"
    } else if i == 4 {
        "item_address"
    } else if i == 5 {
        "items"
    } else if i == 6 {
        "journal_summary"
    } else if i == 7 {
        "mail_summary"
    } else if i == 8 {
        "objects"
    } else if i == 9 {
        "probes"
    } else if i == 10 {
        "queue"
    } else if i == 11 {
        "sources"
    } else if i == 12 {
        "store_meta"
    } else {
        "task_summary"
    }
}

/// The versions a store at `version` has to be migrated through, in order,
/// up to the current one.
pub open spec fn steps_from(version: int, current: int) -> Seq<i64> {
    let first = if version < 0 {
        0
    } else {
        version
    };
    Seq::new(
        if current > first {
            (current - first) as nat
        } else {
            0
        },
        |i: int| (first + 1 + i) as i64,
    )
}

/// The migrations a store still needs, by the version each reaches: every
/// one above the store's. The first one seeds `store_meta`, each sets the
/// version it reaches. A store above the current version is refused.
pub fn migrations_from(version: i64, current: i64) -> (steps: Result<Vec<i64>, PimdirError>)
    requires
        0 <= current < i64::MAX,
    ensures
        match steps {
            Ok(steps) => version <= current && steps@ == steps_from(version as int, current as int),
            Err(error) => version > current && error@ == (ErrorView::Version {
                found: version,
                current,
            }),
        },
{
    if version > current {
        return Err(PimdirError::Version { found: version, current });
    }
    let first: i64 = if version < 0 {
        0
    } else {
        version
    };
    let mut steps: Vec<i64> = Vec::new();
    let mut reached: i64 = first;
    while reached < current
        invariant
            0 <= first <= reached <= current < i64::MAX,
            steps.len() == reached - first,
            forall|i: int| 0 <= i < steps.len() ==> #[trigger] steps@[i] == first + 1 + i,
        decreases current - reached,
    {
        reached = reached + 1;
        steps.push(reached);
    }
    assert(steps@ =~= steps_from(version as int, current as int));
    Ok(steps)
}

/// Whether a store holds a table.
pub open spec fn holds(tables: Seq<Text>, name: Text) -> bool {
    exists|i: int| 0 <= i < tables.len() && #[trigger] tables[i] == name
}

/// The first declared table at or past a place that a store lacks.
pub open spec fn missing_from(tables: Seq<Text>, i: int) -> Option<Text>
    decreases TABLES - i,
{
    if i >= TABLES {
        None
    } else if !holds(tables, table_name(i)) {
        Some(table_name(i))
    } else {
        missing_from(tables, i + 1)
    }
}

/// Why a store stamped at the current version is refused: an earlier
/// draft's shape, or disagreeing stamps.
pub open spec fn refusal(tables: Seq<Text>, stamped: Option<i64>, current: i64) -> Option<
    ErrorView,
> {
    match missing_from(tables, 0) {
        Some(table) => Some(ErrorView::Stale { table }),
        None => match stamped {
            Some(store_meta) => if store_meta != current {
                Some(ErrorView::VersionMismatch { user_version: current, store_meta })
            } else {
                None
            },
            None => None,
        },
    }
}

/// Whether a store holds a table.
fn has_table(tables: &Vec<String>, name: &str) -> (held: bool)
    ensures
        held == holds(tables.deep_view(), name@),
{
    let ghost all = tables.deep_view();
    let mut i: usize = 0;
    while i < tables.len()
        invariant
            i <= tables.len(),
            all == tables.deep_view(),
            forall|j: int| 0 <= j < i ==> #[trigger] all[j] != name@,
        decreases tables.len() - i,
    {
        assert(all[i as int] == tables@[i as int]@);
        if text_same(tables[i].as_str(), name) {
            return true;
        }
        i = i + 1;
    }
    false
}

/// Refuses a store stamped at the current version that this crate does not
/// read: an earlier draft's shape, or disagreeing stamps.
///
/// The shape is checked first, so a store lacking `store_meta` is named as
/// stale rather than failing the read of its stamp. A store missing a table
/// is recreated by its owner, never reconciled here.
pub fn check(tables: &Vec<String>, stamped: Option<i64>, current: i64) -> (checked: Result<
    (),
    PimdirError,
>)
    ensures
        crate::client::failed(checked) == refusal(tables.deep_view(), stamped, current),
{
    let mut i: usize = 0;
    while i < TABLES
        invariant
            i <= TABLES,
            missing_from(tables.deep_view(), 0) == missing_from(tables.deep_view(), i as int),
        decreases TABLES - i,
    {
        let name = table(i);
        if !has_table(tables, name) {
            return Err(PimdirError::Stale { table: name });
        }
        i = i + 1;
    }
    match stamped {
        Some(store_meta) => if store_meta != current {
            Err(PimdirError::VersionMismatch { user_version: current, store_meta })
        } else {
            Ok(())
        },
        None => Ok(()),
    }
}

/// Opens an existing database read-only or as a producer, refusing what
/// [`check`] refuses plus an unstamped or foreign version.
pub fn check_version(
    version: i64,
    tables: &Vec<String>,
    stamped: Option<i64>,
    current: i64,
) -> (checked: Result<(), PimdirError>)
    ensures
        crate::client::failed(checked) == if version == current {
            refusal(tables.deep_view(), stamped, current)
        } else if version == 0 {
            Some(ErrorView::Uncreated)
        } else {
            Some(ErrorView::Version { found: version, current })
        },
{
    if version == current {
        check(tables, stamped, current)
    } else if version == 0 {
        Err(PimdirError::Uncreated)
    } else {
        Err(PimdirError::Version { found: version, current })
    }
}

/// The algorithm a spelling names.
pub open spec fn algo_of(text: Text) -> Option<PimdirHashAlgo> {
    if text == PimdirHashAlgo::Blake3.text() {
        Some(PimdirHashAlgo::Blake3)
    } else if text == PimdirHashAlgo::Sha256_128.text() {
        Some(PimdirHashAlgo::Sha256_128)
    } else {
        None
    }
}

/// The spelling of a declared algorithm.
pub open spec fn declared_text(declared: Option<PimdirHashAlgo>) -> Option<Text> {
    match declared {
        Some(declared) => Some(declared.text()),
        None => None,
    }
}

/// The algorithm a store names its bodies by, or why the handle is refused.
pub open spec fn store_algo(stored: Option<Text>, declared: Option<PimdirHashAlgo>) -> Result<
    PimdirHashAlgo,
    ErrorView,
> {
    match stored {
        None => Ok(
            match declared {
                Some(declared) => declared,
                None => PimdirHashAlgo::Blake3,
            },
        ),
        Some(found) => match algo_of(found) {
            None => Err(ErrorView::HashAlgo { found, declared: declared_text(declared) }),
            Some(algo) => if declared is Some && declared != Some(algo) {
                Err(ErrorView::HashAlgo { found, declared: declared_text(declared) })
            } else {
                Ok(algo)
            },
        },
    }
}

/// The algorithm the store records, checked against the one declared: a
/// handle computing another would name bodies no reader finds.
pub fn hash_algo(stored: Option<String>, declared: Option<PimdirHashAlgo>) -> (algo: Result<
    PimdirHashAlgo,
    PimdirError,
>)
    ensures
        match algo {
            Ok(algo) => store_algo(stored.deep_view(), declared) == Ok::<
                PimdirHashAlgo,
                ErrorView,
            >(algo),
            Err(error) => store_algo(stored.deep_view(), declared) == Err::<
                PimdirHashAlgo,
                ErrorView,
            >(error@),
        },
{
    let found = match stored {
        Some(found) => found,
        None => {
            return Ok(
                match declared {
                    Some(declared) => declared,
                    None => PimdirHashAlgo::Blake3,
                },
            );
        },
    };
    let spelled = match declared {
        Some(declared) => Some(declared.as_str()),
        None => None,
    };
    match PimdirHashAlgo::parse(found.as_str()) {
        None => {
            assert(PimdirHashAlgo::Blake3.text() != found@);
            assert(PimdirHashAlgo::Sha256_128.text() != found@);
            Err(PimdirError::HashAlgo { found, declared: spelled })
        },
        Some(algo) => {
            proof {
                lemma_an_algorithm_is_its_spelling(algo, PimdirHashAlgo::Blake3);
                lemma_an_algorithm_is_its_spelling(algo, PimdirHashAlgo::Sha256_128);
            }
            match declared {
                Some(declared) => if declared != algo {
                    Err(PimdirError::HashAlgo { found, declared: spelled })
                } else {
                    Ok(algo)
                },
                None => Ok(algo),
            }
        },
    }
}

/// A store the owner has just migrated is one every other role opens, once
/// its tables are there and its stamp says so.
pub proof fn lemma_a_migrated_store_is_read(
    version: i64,
    tables: Seq<Text>,
    current: i64,
    i: int,
)
    requires
        0 <= version < current,
        forall|k: int| 0 <= k < TABLES ==> holds(tables, #[trigger] table_name(k)),
        0 <= i < steps_from(version as int, current as int).len(),
    ensures
        steps_from(version as int, current as int).last() == current,
        steps_from(version as int, current as int)[i] == version + 1 + i,
        refusal(tables, Some(current), current) is None,
{
    lemma_nothing_missing(tables, 0);
}

proof fn lemma_nothing_missing(tables: Seq<Text>, i: int)
    requires
        0 <= i <= TABLES,
        forall|k: int| 0 <= k < TABLES ==> holds(tables, #[trigger] table_name(k)),
    ensures
        missing_from(tables, i) is None,
    decreases TABLES - i,
{
    if i < TABLES {
        assert(holds(tables, table_name(i)));
        lemma_nothing_missing(tables, i + 1);
    }
}

/// A store missing a table is refused for the first that is missing, one
/// stamped with another version for that, and any other is opened.
pub proof fn lemma_a_store_is_refused_for_what_is_wrong(
    tables: Seq<Text>,
    stamped: Option<i64>,
    current: i64,
    i: int,
)
    requires
        0 <= i <= TABLES,
        forall|k: int| 0 <= k < i ==> holds(tables, #[trigger] table_name(k)),
        i < TABLES ==> !holds(tables, table_name(i)),
    ensures
        i < TABLES ==> refusal(tables, stamped, current) == Some(
            ErrorView::Stale { table: table_name(i) },
        ),
        i == TABLES && stamped == Some(current) ==> refusal(tables, stamped, current) is None,
        i == TABLES && stamped is None ==> refusal(tables, stamped, current) is None,
        i == TABLES && stamped is Some && stamped != Some(current) ==> refusal(
            tables,
            stamped,
            current,
        ) == Some(
            ErrorView::VersionMismatch { user_version: current, store_meta: stamped->0 },
        ),
{
    lemma_the_first_missing(tables, 0, i);
}

proof fn lemma_the_first_missing(tables: Seq<Text>, from: int, i: int)
    requires
        0 <= from <= i <= TABLES,
        forall|k: int| from <= k < i ==> holds(tables, #[trigger] table_name(k)),
        i < TABLES ==> !holds(tables, table_name(i)),
    ensures
        missing_from(tables, from) == if i < TABLES {
            Some(table_name(i))
        } else {
            None
        },
    decreases TABLES - from,
{
    if from < i {
        assert(holds(tables, table_name(from)));
        lemma_the_first_missing(tables, from + 1, i);
    }
}

/// A store keeps the hash it was made with: one that states none takes the
/// declared, or the default; one that states another than the declared, or
/// one unknown, is refused with what it states.
pub proof fn lemma_a_store_keeps_its_hash(
    algo: PimdirHashAlgo,
    other: PimdirHashAlgo,
    found: Text,
)
    requires
        algo != other,
    ensures
        store_algo(None, None) == Ok::<PimdirHashAlgo, ErrorView>(PimdirHashAlgo::Blake3),
        store_algo(None, Some(algo)) == Ok::<PimdirHashAlgo, ErrorView>(algo),
        store_algo(Some(algo.text()), None) == Ok::<PimdirHashAlgo, ErrorView>(algo),
        store_algo(Some(algo.text()), Some(algo)) == Ok::<PimdirHashAlgo, ErrorView>(algo),
        store_algo(Some(algo.text()), Some(other)) == Err::<PimdirHashAlgo, ErrorView>(
            ErrorView::HashAlgo { found: algo.text(), declared: Some(other.text()) },
        ),
        found != PimdirHashAlgo::Blake3.text() && found != PimdirHashAlgo::Sha256_128.text()
            ==> store_algo(Some(found), None) == Err::<PimdirHashAlgo, ErrorView>(
            ErrorView::HashAlgo { found, declared: None },
        ),
{
    reveal_strlit("blake3");
    reveal_strlit("sha256-128");
    assert("blake3"@.len() == 6 && "sha256-128"@.len() == 10);
}

} // verus!
