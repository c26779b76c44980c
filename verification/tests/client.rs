use io_pimdir::{
    client::{
        blobs::{
            blob_at, blob_path, collect_garbage, stage, PimdirBlobFile, PimdirBlobs, PimdirBody,
            PimdirGcReport, PimdirTreeFile,
        },
        busy_or_sql,
        diagnostics::{dangling, object_stats, PimdirDangling, PimdirObjectStats},
        lock::PimdirOwners,
        release_pins,
        run::{split_yield, PimdirRunError},
        schema::{check, check_version, hash_algo, migrations_from},
        PimdirError,
    },
    change::PimdirWriteOp,
    codec::PimdirActionError,
    collection::PimdirCollectionId,
    coroutine::PimdirYield,
    hash::PimdirHashAlgo,
    load::PimdirLoadScope,
    object::{PimdirHash, PimdirObject},
    remote::PimdirTier,
    text_map::TextSet,
};

/// The tables a store at the current version holds.
fn tables() -> Vec<String> {
    [
        "bindings",
        "collections",
        "contact_summary",
        "event_summary",
        "item_address",
        "items",
        "journal_summary",
        "mail_summary",
        "objects",
        "probes",
        "queue",
        "sources",
        "store_meta",
        "task_summary",
    ]
    .iter()
    .map(|table| table.to_string())
    .collect()
}

#[test]
fn every_failure_has_its_message() {
    let told = [
        (
            PimdirError::Sql { busy: false, message: "no such table".into() },
            "Pimdir SQL error: no such table",
        ),
        (PimdirError::Io("denied".into()), "Pimdir I/O error: denied"),
        (PimdirError::Json("eof".into()), "Pimdir JSON error: eof"),
        (
            PimdirError::Action(PimdirActionError::UnknownVersion(Some(7))),
            "Pimdir action error: Unknown pimdir action version: 7",
        ),
        (
            PimdirError::Rebind {
                collection: "inbox".into(),
                link_id: "m1".into(),
                source: "left".into(),
                bound: "l1".into(),
                incoming: "l2".into(),
            },
            "Pimdir binding inbox/m1 on source left holds handle l1 and this write carries l2: a \
             binding pins one handle",
        ),
        (
            PimdirError::Version { found: 9, current: 1 },
            "Pimdir store schema version 9 is unsupported (this crate services version 1)",
        ),
        (
            PimdirError::Uncreated,
            "Pimdir store has no schema yet: its owner has to create it first",
        ),
        (
            PimdirError::VersionMismatch { user_version: 1, store_meta: -2 },
            "Pimdir store is corrupt: PRAGMA user_version is 1 but store_meta records -2",
        ),
        (
            PimdirError::Stale { table: "probes" },
            "Pimdir store was written by an earlier draft and lacks the probes table: delete the \
             store and let it resync",
        ),
        (
            PimdirError::HashAlgo { found: "blake3".into(), declared: Some("sha256-128") },
            "Pimdir store names its objects with blake3, not the sha256-128 this handle declared",
        ),
        (
            PimdirError::HashAlgo { found: "md5".into(), declared: None },
            "Pimdir store names its objects with md5, which this crate does not compute",
        ),
        (
            PimdirError::Busy,
            "Pimdir store is busy: another writer holds the write lock, retry once it releases",
        ),
        (
            PimdirError::Owned("/store".into()),
            "Pimdir store at /store is owned by another process",
        ),
        (
            PimdirError::Staging("/store".into()),
            "Pimdir store at /store has a producer staging a body",
        ),
    ];
    for (error, message) in told {
        assert_eq!(error.message(), message);
    }
}

#[test]
fn only_the_environment_is_worth_a_retry() {
    assert!(PimdirError::Busy.retryable());
    assert!(PimdirError::Io("full".into()).retryable());
    assert!(PimdirError::Sql { busy: true, message: String::new() }.retryable());
    assert!(!PimdirError::Sql { busy: false, message: String::new() }.retryable());
    assert!(!PimdirError::Uncreated.retryable());
    assert!(!PimdirError::Owned("/store".into()).retryable());
}

#[test]
fn a_busy_failure_reads_apart_from_a_broken_one() {
    assert_eq!(busy_or_sql(true, "locked".into()), PimdirError::Busy);
    assert_eq!(
        busy_or_sql(false, "syntax".into()),
        PimdirError::Sql { busy: false, message: "syntax".into() }
    );
}

#[test]
fn a_purge_releases_both_bodies_of_each_row() {
    let rows = vec![
        (Some("a".to_string()), Some("b".to_string())),
        (None, Some("c".to_string())),
        (None, None),
    ];
    let (pins, report) = release_pins(&rows);
    assert_eq!(pins, vec!["a", "b", "c"]);
    assert_eq!(report.items, 3);
}

#[test]
fn a_store_is_migrated_step_by_step_and_a_newer_one_is_refused() {
    assert_eq!(migrations_from(0, 3), Ok(vec![1, 2, 3]));
    assert_eq!(migrations_from(2, 3), Ok(vec![3]));
    assert_eq!(migrations_from(3, 3), Ok(vec![]));
    assert_eq!(migrations_from(-4, 2), Ok(vec![1, 2]));
    assert_eq!(
        migrations_from(4, 3),
        Err(PimdirError::Version { found: 4, current: 3 })
    );
}

#[test]
fn a_store_of_another_shape_is_refused() {
    assert_eq!(check(&tables(), Some(1), 1), Ok(()));
    assert_eq!(check(&tables(), None, 1), Ok(()), "an unstamped store is read");
    assert_eq!(
        check(&tables(), Some(2), 1),
        Err(PimdirError::VersionMismatch { user_version: 1, store_meta: 2 })
    );

    let mut partial = tables();
    partial.retain(|table| table != "probes" && table != "queue");
    assert_eq!(
        check(&partial, Some(2), 1),
        Err(PimdirError::Stale { table: "probes" }),
        "the first missing table is named, before the stamp is read"
    );

    assert_eq!(check_version(1, &tables(), Some(1), 1), Ok(()));
    assert_eq!(check_version(0, &tables(), Some(1), 1), Err(PimdirError::Uncreated));
    assert_eq!(
        check_version(5, &tables(), Some(1), 1),
        Err(PimdirError::Version { found: 5, current: 1 })
    );
}

#[test]
fn a_store_keeps_the_hash_it_was_made_with() {
    assert_eq!(hash_algo(None, None), Ok(PimdirHashAlgo::Blake3));
    assert_eq!(
        hash_algo(None, Some(PimdirHashAlgo::Sha256_128)),
        Ok(PimdirHashAlgo::Sha256_128)
    );
    assert_eq!(
        hash_algo(Some("sha256-128".into()), None),
        Ok(PimdirHashAlgo::Sha256_128)
    );
    assert_eq!(
        hash_algo(Some("sha256-128".into()), Some(PimdirHashAlgo::Blake3)),
        Err(PimdirError::HashAlgo { found: "sha256-128".into(), declared: Some("blake3") })
    );
    assert_eq!(
        hash_algo(Some("md5".into()), None),
        Err(PimdirError::HashAlgo { found: "md5".into(), declared: None })
    );
}

/// Two handles of one process share the lock, and the last one lets it go.
#[test]
fn a_shared_lock_is_let_go_by_its_last_handle() {
    let mut owners = PimdirOwners::new();
    assert!(!owners.owns("/a"));
    owners.take("/a");
    owners.take("/a");
    owners.take("/b");
    assert!(owners.owns("/a"));
    assert_eq!((owners.handles("/a"), owners.handles("/c")), (2, 0));
    assert!(!owners.release("/a"), "another handle still holds it");
    assert!(owners.owns("/a"));
    assert!(owners.release("/a"));
    assert!(!owners.owns("/a"));
    assert!(owners.owns("/b"), "and the other store is untouched");
    assert!(!owners.release("/a"), "nothing is left to let go");
}

#[test]
fn a_run_failure_is_told_by_whoever_failed() {
    let store: PimdirRunError<String, String> = PimdirRunError::from(PimdirError::Uncreated);
    assert!(matches!(store, PimdirRunError::Store(PimdirError::Uncreated)));
    assert_eq!(
        store.message("unused"),
        "Pimdir store failed: Pimdir store has no schema yet: its owner has to create it first"
    );
    let remote: PimdirRunError<String, String> = PimdirRunError::Remote("down".into());
    assert_eq!(remote.message("down"), "Pimdir remote failed: down");
    let coroutine: PimdirRunError<String, String> = PimdirRunError::Coroutine("broken".into());
    assert_eq!(coroutine.message("broken"), "Pimdir engine failed: broken");
}

/// What the remote answers and what the store answers never mix.
#[test]
fn a_yield_is_the_remotes_or_the_stores() {
    let inbox = || PimdirCollectionId::from("inbox");
    let remote = [
        PimdirYield::WantsEnumerate { collection: inbox(), cursor: None },
        PimdirYield::WantsFetch { collection: inbox(), handles: vec![], tier: PimdirTier::Meta },
        PimdirYield::WantsPush { collection: inbox(), changes: vec![] },
    ];
    for yielded in remote {
        assert!(split_yield(yielded).is_err());
    }
    let store = [
        PimdirYield::WantsLoad { collection: inbox(), scope: PimdirLoadScope::All },
        PimdirYield::WantsLookupObject(vec![]),
        PimdirYield::WantsWrite(vec![]),
    ];
    for yielded in store {
        assert!(split_yield(yielded).is_ok());
    }
}

/// The writer and the walk agree on where a body lies.
#[test]
fn a_body_lies_under_its_two_leading_pairs() {
    let path = blob_path("abcdef").expect("a path");
    assert_eq!(path, vec!["ab", "cd", "abcdef"]);
    assert_eq!(blob_at(&path), Some("abcdef".to_string()));
    assert_eq!(
        blob_at(&vec!["zz".to_string(), "cd".to_string(), "abcdef".to_string()]),
        None,
        "a file elsewhere is no body"
    );
    assert_eq!(
        blob_at(&vec!["ab".to_string(), "cd".to_string(), ".abcdef".to_string()]),
        None,
        "nor is a temporary one"
    );
    assert_eq!(blob_path("abc"), Some(vec!["abc".to_string()]), "a short name is not split");
    assert_eq!(blob_path("a\u{e9}cd"), None, "no pair cuts a character");
}

#[test]
fn a_blob_store_names_and_finds_bodies_by_its_hash() {
    let blobs = PimdirBlobs::open(PimdirHashAlgo::Sha256_128);
    assert_eq!(blobs.hash_algo(), PimdirHashAlgo::Sha256_128);
    let hash = blobs.hash(b"pimdir");
    let mut hasher = blobs.hasher();
    hasher.update(b"pim");
    hasher.update(b"dir");
    assert_eq!(hasher.finish(), hash);

    let path = blobs.path(&hash).expect("a path");
    let files = vec![
        PimdirTreeFile { path, size: 6 },
        PimdirTreeFile { path: vec!["stray".into()], size: 1 },
    ];
    assert_eq!(
        blobs.files(&files),
        vec![PimdirBlobFile { hash: hash.0, size: 6 }]
    );
}

#[test]
fn only_the_bodies_an_op_carries_are_staged() {
    let ops = vec![
        PimdirWriteOp::StoreObject {
            object: PimdirObject { hash: PimdirHash::from("h1"), size: 2 },
            body: Some(b"hi".to_vec()),
        },
        PimdirWriteOp::StoreObject {
            object: PimdirObject { hash: PimdirHash::from("h2"), size: 2 },
            body: None,
        },
    ];
    assert_eq!(
        stage(&ops),
        vec![PimdirBody { hash: PimdirHash::from("h1"), bytes: b"hi".to_vec() }]
    );
}

#[test]
fn a_collection_frees_what_nothing_indexes() {
    let files = vec![
        PimdirBlobFile { hash: "kept".into(), size: 4 },
        PimdirBlobFile { hash: "gone".into(), size: 3 },
        PimdirBlobFile { hash: "lost".into(), size: 2 },
    ];
    let mut indexed = TextSet::new();
    indexed.insert("kept".into());
    let (removed, report) = collect_garbage(&files, &indexed, 1);
    assert_eq!(removed.len(), 2);
    assert_eq!(removed[0].hash, "gone");
    assert_eq!(removed[1].hash, "lost");
    assert_eq!(report, PimdirGcReport { objects: 1, blobs: 2, bytes: 5 });
}

#[test]
fn a_negative_aggregate_counts_nothing() {
    assert_eq!(object_stats(3, 40), PimdirObjectStats { count: 3, bytes: 40 });
    assert_eq!(object_stats(-1, -40), PimdirObjectStats { count: 0, bytes: 0 });
}

#[test]
fn a_dangling_row_names_itself_and_what_it_lacks() {
    let rows = dangling(
        &vec![("inbox".into(), "m1".into(), "left".into())],
        &vec![("inbox".into(), "m2".into(), "h2".into())],
        &vec![(7, "inbox".into(), "h3".into())],
    );
    let told: Vec<(&str, &str, &str)> = rows
        .iter()
        .map(|row: &PimdirDangling| (row.kind.as_str(), row.row.as_str(), row.target.as_str()))
        .collect();
    assert_eq!(
        told,
        vec![
            ("binding", "inbox/m1 @left", "item inbox/m1"),
            ("item-object", "inbox/m2", "object h2"),
            ("queue-object", "queue 7 (inbox)", "object h3"),
        ]
    );
}
