//! # Client
//!
//! What the store decides, apart from the database and the files it is kept
//! in: the rows a batch of writes moves, what a load assembles, what a
//! drain stages, what a read folds over the committed rows, and when a
//! store is refused.

pub mod blobs;
pub mod diagnostics;
pub mod load;
pub mod lock;
pub mod producer;
pub mod reader;
pub mod rows;
pub mod run;
pub mod schema;
pub mod tables;
pub mod write;

use crate::codec::{push_signed, signed_text, ActionErrorView, PimdirActionError};
use crate::client::write::at_most_one;
use crate::list::push_to;
use crate::text::Text;
use vstd::prelude::*;
use vstd::string::*;

verus! {

/// Everything that can go wrong servicing the store.
#[derive(Debug, PartialEq, Eq)]
pub enum PimdirError {
    /// The database refused a statement, or the connection failed.
    Sql {
        /// Whether it was busy or locked.
        busy: bool,
        /// What it said.
        message: String,
    },
    /// The blob directory refused a read, a write or a rename.
    Io(String),
    /// JSON encoding failed at the seam.
    Json(String),
    /// A queue action payload is malformed.
    Action(PimdirActionError),
    /// A write resolved an existing binding to a different handle and was
    /// refused: a binding pins one handle, and the one licensed rebind is a
    /// `Superseded` or `Rekeyed` drop in the same batch.
    Rebind {
        /// The collection holding the binding.
        collection: String,
        /// The identity it is keyed by.
        link_id: String,
        /// The source whose binding it is.
        source: String,
        /// The handle the binding holds, and keeps.
        bound: String,
        /// The handle the refused write carried.
        incoming: String,
    },
    /// The store's schema version is not one this crate services.
    Version {
        /// The store's `user_version`.
        found: i64,
        /// The version this crate services.
        current: i64,
    },
    /// The store has no schema yet; only the owner's open creates one.
    Uncreated,
    /// The two schema stamps disagree, which is corruption.
    VersionMismatch {
        /// The store's `PRAGMA user_version`.
        user_version: i64,
        /// The version its `store_meta` row records.
        store_meta: i64,
    },
    /// The store was created by an earlier draft and lacks a table the
    /// current schema declares: recreate it, the draft offers no migration.
    Stale {
        /// The first table found missing.
        table: &'static str,
    },
    /// The store's `hash_algo` is not one this crate computes, or not the
    /// one the caller declared.
    HashAlgo {
        /// The algorithm the store records.
        found: String,
        /// The algorithm the caller declared, when it declared one.
        declared: Option<&'static str>,
    },
    /// Another writer holds the write lock; retry once it releases.
    Busy,
    /// Another process owns the store, reported at once rather than waited
    /// out.
    Owned(String),
    /// A producer is between its blob write and the enqueue that pins it,
    /// so a collector cannot run.
    Staging(String),
}

/// What a [`PimdirError`] says, by value.
#[verifier::ext_equal]
pub enum ErrorView {
    Sql { busy: bool, message: Text },
    Io(Text),
    Json(Text),
    Action(ActionErrorView),
    Rebind { collection: Text, link_id: Text, source: Text, bound: Text, incoming: Text },
    Version { found: i64, current: i64 },
    Uncreated,
    VersionMismatch { user_version: i64, store_meta: i64 },
    Stale { table: Text },
    HashAlgo { found: Text, declared: Option<Text> },
    Busy,
    Owned(Text),
    Staging(Text),
}

impl View for PimdirError {
    type V = ErrorView;

    open spec fn view(&self) -> ErrorView {
        match *self {
            PimdirError::Sql { busy, message } => ErrorView::Sql { busy, message: message@ },
            PimdirError::Io(message) => ErrorView::Io(message@),
            PimdirError::Json(message) => ErrorView::Json(message@),
            PimdirError::Action(error) => ErrorView::Action(error@),
            PimdirError::Rebind { collection, link_id, source, bound, incoming } =>
                ErrorView::Rebind {
                collection: collection@,
                link_id: link_id@,
                source: source@,
                bound: bound@,
                incoming: incoming@,
            },
            PimdirError::Version { found, current } => ErrorView::Version { found, current },
            PimdirError::Uncreated => ErrorView::Uncreated,
            PimdirError::VersionMismatch { user_version, store_meta } =>
                ErrorView::VersionMismatch { user_version, store_meta },
            PimdirError::Stale { table } => ErrorView::Stale { table: table@ },
            PimdirError::HashAlgo { found, declared } => ErrorView::HashAlgo {
                found: found@,
                declared: match declared {
                    Some(declared) => Some(declared@),
                    None => None,
                },
            },
            PimdirError::Busy => ErrorView::Busy,
            PimdirError::Owned(store) => ErrorView::Owned(store@),
            PimdirError::Staging(store) => ErrorView::Staging(store@),
        }
    }
}

impl ErrorView {
    /// The message of an error.
    pub open spec fn message(self) -> Text {
        match self {
            ErrorView::Sql { message, .. } => "Pimdir SQL error: "@ + message,
            ErrorView::Io(message) => "Pimdir I/O error: "@ + message,
            ErrorView::Json(message) => "Pimdir JSON error: "@ + message,
            ErrorView::Action(error) => "Pimdir action error: "@ + error.message(),
            ErrorView::Rebind { collection, link_id, source, bound, incoming } =>
                "Pimdir binding "@ + collection + "/"@ + link_id + " on source "@ + source
                + " holds handle "@ + bound + " and this write carries "@ + incoming
                + ": a binding pins one handle"@,
            ErrorView::Version { found, current } => "Pimdir store schema version "@ + signed_text(
                found as int,
            ) + " is unsupported (this crate services version "@ + signed_text(current as int)
                + ")"@,
            ErrorView::Uncreated =>
                "Pimdir store has no schema yet: its owner has to create it first"@,
            ErrorView::VersionMismatch { user_version, store_meta } =>
                "Pimdir store is corrupt: PRAGMA user_version is "@ + signed_text(
                user_version as int,
            ) + " but store_meta records "@ + signed_text(store_meta as int),
            ErrorView::Stale { table } =>
                "Pimdir store was written by an earlier draft and lacks the "@ + table
                + " table: delete the store and let it resync"@,
            ErrorView::HashAlgo { found, declared: Some(declared) } =>
                "Pimdir store names its objects with "@ + found + ", not the "@ + declared
                + " this handle declared"@,
            ErrorView::HashAlgo { found, declared: None } =>
                "Pimdir store names its objects with "@ + found
                + ", which this crate does not compute"@,
            ErrorView::Busy =>
                "Pimdir store is busy: another writer holds the write lock, retry once it releases"@,
            ErrorView::Owned(store) => "Pimdir store at "@ + store
                + " is owned by another process"@,
            ErrorView::Staging(store) => "Pimdir store at "@ + store
                + " has a producer staging a body"@,
        }
    }

    /// Whether a failure is the environment's rather than the store's.
    pub open spec fn retryable(self) -> bool {
        match self {
            ErrorView::Busy => true,
            ErrorView::Io(_) => true,
            ErrorView::Sql { busy, .. } => busy,
            _ => false,
        }
    }
}

impl PimdirError {
    /// The message of the error.
    pub fn message(&self) -> (text: String)
        ensures
            text@ == self@.message(),
    {
        match self {
            PimdirError::Sql { message, .. } => {
                let mut text = "Pimdir SQL error: ".to_owned();
                text.append(message.as_str());
                text
            },
            PimdirError::Io(message) => {
                let mut text = "Pimdir I/O error: ".to_owned();
                text.append(message.as_str());
                text
            },
            PimdirError::Json(message) => {
                let mut text = "Pimdir JSON error: ".to_owned();
                text.append(message.as_str());
                text
            },
            PimdirError::Action(error) => {
                let mut text = "Pimdir action error: ".to_owned();
                text.append(error.message().as_str());
                text
            },
            PimdirError::Rebind { collection, link_id, source, bound, incoming } => {
                let mut text = "Pimdir binding ".to_owned();
                text.append(collection.as_str());
                text.append("/");
                text.append(link_id.as_str());
                text.append(" on source ");
                text.append(source.as_str());
                text.append(" holds handle ");
                text.append(bound.as_str());
                text.append(" and this write carries ");
                text.append(incoming.as_str());
                text.append(": a binding pins one handle");
                text
            },
            PimdirError::Version { found, current } => {
                let mut text = "Pimdir store schema version ".to_owned();
                push_signed(&mut text, *found);
                text.append(" is unsupported (this crate services version ");
                push_signed(&mut text, *current);
                text.append(")");
                text
            },
            PimdirError::Uncreated => {
                "Pimdir store has no schema yet: its owner has to create it first".to_owned()
            },
            PimdirError::VersionMismatch { user_version, store_meta } => {
                let mut text = "Pimdir store is corrupt: PRAGMA user_version is ".to_owned();
                push_signed(&mut text, *user_version);
                text.append(" but store_meta records ");
                push_signed(&mut text, *store_meta);
                text
            },
            PimdirError::Stale { table } => {
                let mut text =
                    "Pimdir store was written by an earlier draft and lacks the ".to_owned();
                text.append(table);
                text.append(" table: delete the store and let it resync");
                text
            },
            PimdirError::HashAlgo { found, declared: Some(declared) } => {
                let mut text = "Pimdir store names its objects with ".to_owned();
                text.append(found.as_str());
                text.append(", not the ");
                text.append(declared);
                text.append(" this handle declared");
                text
            },
            PimdirError::HashAlgo { found, declared: None } => {
                let mut text = "Pimdir store names its objects with ".to_owned();
                text.append(found.as_str());
                text.append(", which this crate does not compute");
                text
            },
            PimdirError::Busy => {
                "Pimdir store is busy: another writer holds the write lock, retry once it releases".to_owned()
            },
            PimdirError::Owned(store) => {
                let mut text = "Pimdir store at ".to_owned();
                text.append(store.as_str());
                text.append(" is owned by another process");
                text
            },
            PimdirError::Staging(store) => {
                let mut text = "Pimdir store at ".to_owned();
                text.append(store.as_str());
                text.append(" has a producer staging a body");
                text
            },
        }
    }

    /// Whether a failure is the environment's rather than the store's: the
    /// database busy or a body unreadable is retried, everything else parks
    /// the row.
    pub fn retryable(&self) -> (yes: bool)
        ensures
            yes == self@.retryable(),
    {
        match self {
            PimdirError::Busy => true,
            PimdirError::Io(_) => true,
            PimdirError::Sql { busy, .. } => *busy,
            _ => false,
        }
    }
}

impl From<PimdirActionError> for PimdirError {
    fn from(error: PimdirActionError) -> (made: Self)
        ensures
            made@ == ErrorView::Action(error@),
    {
        PimdirError::Action(error)
    }
}

impl vstd::std_specs::convert::FromSpecImpl<PimdirActionError> for PimdirError {
    open spec fn obeys_from_spec() -> bool {
        true
    }

    open spec fn from_spec(error: PimdirActionError) -> Self {
        PimdirError::Action(error)
    }
}

/// Maps a busy or locked failure of the database to [`PimdirError::Busy`].
pub fn busy_or_sql(busy: bool, message: String) -> (error: PimdirError)
    ensures
        error@ == if busy {
            ErrorView::Busy
        } else {
            ErrorView::Sql { busy: false, message: message@ }
        },
{
    if busy {
        PimdirError::Busy
    } else {
        PimdirError::Sql { busy: false, message }
    }
}

/// What a purge retired.
#[derive(Clone, Copy, Debug, Eq, PartialEq)]
pub struct PimdirPurgeReport {
    /// The retained items purged.
    pub items: usize,
}

/// The bodies deleted rows pinned, row after row: each one's own, then its
/// conflict's.
pub open spec fn pins_of(rows: Seq<(Option<Text>, Option<Text>)>) -> Seq<Text>
    decreases rows.len(),
{
    if rows.len() == 0 {
        Seq::empty()
    } else {
        pins_of(rows.drop_last()) + at_most_one(rows.last().0) + at_most_one(rows.last().1)
    }
}

/// Lists the pins that purged rows held and reports how many rows there
/// were.
pub fn release_pins(rows: &Vec<(Option<String>, Option<String>)>) -> (released: (
    Vec<String>,
    PimdirPurgeReport,
))
    ensures
        released.0.deep_view() == pins_of(rows.deep_view()),
        released.1.items == rows.len(),
{
    let mut pins: Vec<String> = Vec::new();
    let ghost all = rows.deep_view();
    let mut i: usize = 0;
    assert(pins.deep_view() =~= Seq::empty());
    while i < rows.len()
        invariant
            i <= rows.len(),
            all == rows.deep_view(),
            pins.deep_view() == pins_of(all.take(i as int)),
        decreases rows.len() - i,
    {
        let ghost before = pins.deep_view();
        let row = &rows[i];
        proof {
            assert(all.take(i + 1).drop_last() =~= all.take(i as int));
            assert(all.take(i + 1).last() == (row.0.deep_view(), row.1.deep_view()));
        }
        if let Some(hash) = &row.0 {
            push_to(&mut pins, hash.clone());
        }
        if let Some(hash) = &row.1 {
            push_to(&mut pins, hash.clone());
        }
        assert(pins.deep_view() =~= before + at_most_one(row.0.deep_view()) + at_most_one(
            row.1.deep_view(),
        ));
        i = i + 1;
    }
    assert(all.take(i as int) =~= all);
    (pins, PimdirPurgeReport { items: rows.len() })
}

/// A result, by value of its error.
pub open spec fn failed<T>(result: Result<T, PimdirError>) -> Option<ErrorView> {
    match result {
        Ok(_) => None,
        Err(error) => Some(error@),
    }
}

/// Every body a retained row holds is a pin, its own and its conflict's,
/// and nothing else is.
pub proof fn lemma_a_retained_row_pins_its_bodies(
    rows: Seq<(Option<Text>, Option<Text>)>,
    object: Option<Text>,
    conflict: Option<Text>,
)
    ensures
        pins_of(Seq::empty()).len() == 0,
        pins_of(rows).is_prefix_of(pins_of(rows.push((object, conflict)))),
        pins_of(rows.push((object, conflict))).len() == pins_of(rows).len() + (if object is Some {
            1int
        } else {
            0
        }) + (if conflict is Some {
            1int
        } else {
            0
        }),
        object matches Some(hash) ==> pins_of(rows.push((object, conflict)))[pins_of(
            rows,
        ).len() as int] == hash,
        conflict matches Some(hash) ==> pins_of(rows.push((object, conflict))).last() == hash,
{
    assert(rows.push((object, conflict)).drop_last() =~= rows);
    let all = pins_of(rows.push((object, conflict)));
    assert(pins_of(rows) =~= all.subrange(0, pins_of(rows).len() as int));
}

} // verus!
