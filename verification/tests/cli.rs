use io_pimdir::{
    cli::{
        bytes,
        check::{CheckOutput, DanglingRow, MintedKeys, OrphanBlob, RefcountDrift},
        collection::{CollectionRow, CollectionsOutput},
        consent,
        export::{item_line, items_file, note_bodies, ExportOutput},
        gc::GcOutput,
        item::{
            export_body, flag_list, one, probe_limit, restore_action, restore_status,
            retained_cursor, BindingRow, Found, ItemExportOutput, ItemPlacement, ItemPurgeOutput,
            ItemRestoreOutput, ItemRow, ItemShowOutput, ItemsOutput, RestoreStatus,
        },
        join, or_dash,
        queue::{PimdirQueueRead, QueueCancelOutput, QueueOutput},
        report,
        store::{count_all, StoreCollectionCount, StoreInfoOutput},
        PimdirConsent, StoreFlags,
    },
    client::{
        producer::{PimdirParkedAction, PimdirPendingAction},
        reader::{PimdirItem, PimdirRetention},
        PimdirError,
    },
    codec::PimdirAction,
    collection::PimdirCollectionId,
    hub::PimdirBinding,
    object::PimdirHash,
    placement::{PimdirBase, PimdirFlags, PimdirHandle, PimdirLevel, PimdirLinkId},
    summary::{contact::PimdirContactSummary, PimdirAddress, PimdirSummary},
    text_map::TextSet,
};

fn item(seq: i64, retained: bool) -> PimdirItem {
    PimdirItem {
        seq,
        link_id: PimdirLinkId::from("m1"),
        flags: PimdirFlags::from_iter(&["seen", "flagged"]),
        sort_key: String::new(),
        object: Some(PimdirHash::from("h1")),
        level: PimdirLevel::Full,
        summary: None,
        retention: if retained {
            Some(PimdirRetention {
                at: "2026-08-01T10:00:00Z".into(),
                by: Some("left".into()),
                size: Some(2048),
            })
        } else {
            None
        },
    }
}

fn found(seq: i64, retained: bool) -> Found {
    Found {
        collection: "inbox".into(),
        item: item(seq, retained),
    }
}

#[test]
fn a_byte_count_is_told_in_its_largest_unit() {
    assert_eq!(bytes(0), "0 B");
    assert_eq!(bytes(1023), "1023 B");
    assert_eq!(bytes(1024), "1.0 KiB");
    assert_eq!(bytes(1280), "1.2 KiB");
    assert_eq!(bytes(1792), "1.8 KiB");
    assert_eq!(bytes(5 * 1024 * 1024), "5.0 MiB");
    assert_eq!(bytes(3 * 1024 * 1024 * 1024 + 1), "3.0 GiB");
    assert_eq!(bytes(u64::MAX), "16777216.0 TiB");
    for count in [1u64, 999, 1025, 123_456, 99_999_999, 1 << 40, (1 << 53) + 1] {
        let mut value = count as f64;
        let mut unit = 0;
        while value >= 1024.0 && unit < 4 {
            value /= 1024.0;
            unit += 1;
        }
        let units = ["B", "KiB", "MiB", "GiB", "TiB"];
        let told = if unit == 0 {
            format!("{count} B")
        } else {
            format!("{value:.1} {}", units[unit])
        };
        assert_eq!(bytes(count), told);
    }
}

#[test]
fn small_texts() {
    assert_eq!(or_dash(Some("a")), "a");
    assert_eq!(or_dash(None), "-");
    assert_eq!(join(&vec!["a".into(), "b".into()], ", "), "a, b");
    assert_eq!(join(&vec![], ", "), "");
    assert_eq!(report(&PimdirError::Uncreated), PimdirError::Uncreated.message());
    assert_eq!(
        report(&PimdirError::Owned("/store".into())),
        "another process owns the store at /store (a sync is running?); retry once it releases"
    );
    assert_eq!(
        report(&PimdirError::Staging("/store".into())),
        "a producer is staging a body in the store at /store (a frontend is open?); retry once it \
         is done"
    );
    assert_eq!(
        report(&PimdirError::Busy),
        "another writer holds the store lock (a sync is running?); retry once it releases"
    );
}

#[test]
fn a_store_has_to_exist_and_one_source_has_to_be_picked() {
    let mut flags = StoreFlags { store: "/store".into(), source: None };
    assert_eq!(flags.dir(), "/store");
    assert_eq!(flags.ensure_store("/store/pimdir.db", true), Ok(()));
    assert_eq!(
        flags.ensure_store("/store/pimdir.db", false),
        Err("no pimdir store at /store: /store/pimdir.db not found".to_string())
    );
    assert_eq!(flags.write_source(&vec!["left".into()]), Ok("left".to_string()));
    assert_eq!(
        flags.write_source(&vec![]),
        Err("this store syncs no source yet: name the one to write as with --source".to_string())
    );
    assert_eq!(
        flags.write_source(&vec!["left".into(), "right".into()]),
        Err(
            "this store syncs several sources (left, right): pick the one to write as with --source"
                .to_string()
        )
    );
    flags.source = Some("phone".into());
    assert_eq!(flags.write_source(&vec![]), Ok("phone".to_string()));
}

/// A prompt nobody can answer is a refusal.
#[test]
fn consent_is_asked_of_a_terminal_alone() {
    assert_eq!(consent(true, false, false), PimdirConsent::Granted);
    assert_eq!(consent(false, false, true), PimdirConsent::Asked);
    assert_eq!(consent(false, true, true), PimdirConsent::Refused);
    assert_eq!(consent(false, false, false), PimdirConsent::Refused);
}

#[test]
fn a_sound_store_is_told_so() {
    let files = vec![OrphanBlob { hash: "h1".into(), size: 4, path: "ab/h1".into() }];
    let mut indexed = TextSet::new();
    indexed.insert("h1".into());
    let check = CheckOutput::new(&files, &indexed, vec![], vec![], vec![], 0, 0);
    assert_eq!(check.problems(), 0);
    assert_eq!(
        check.lines(),
        vec!["This store is consistent: no orphan blob, no refcount drift, no dangling row"]
    );
    assert!(!CheckOutput::repairs(&check.drift, &check.dangling, true));
}

#[test]
fn every_problem_of_a_store_is_told() {
    let files = vec![OrphanBlob { hash: "h9".into(), size: 1024, path: "ab/h9".into() }];
    let mut indexed = TextSet::new();
    indexed.insert("h1".into());
    let check = CheckOutput::new(
        &files,
        &indexed,
        vec![RefcountDrift { hash: "h1".into(), stored: 2, expected: 1 }],
        vec![DanglingRow {
            kind: "binding".into(),
            row: "inbox/m1 @left".into(),
            target: "item inbox/m1".into(),
        }],
        vec![MintedKeys { collection: "inbox".into(), items: 3 }],
        1,
        1,
    );
    assert_eq!(check.problems(), 4);
    assert_eq!(check.orphan_bytes, 1024);
    assert_eq!(check.missing, vec!["h1"]);
    assert!(CheckOutput::repairs(&check.drift, &check.dangling, true));
    assert!(!CheckOutput::repairs(&check.drift, &check.dangling, false));
    assert_eq!(
        check.lines(),
        vec![
            "1 orphan blob file(s), 1.0 KiB not referenced by any object row:",
            " - h9 (1.0 KiB)",
            "   Reclaim them with `pimdir gc`",
            "1 object row(s) whose body is missing from the blob store:",
            " - h1",
            "1 object(s) with a drifted refcount:",
            " - h1: stored 2, references 1",
            "1 dangling row(s):",
            " - binding inbox/m1 @left points at a missing item inbox/m1",
            "Minted keys, the second copies of an identity a source holds twice:",
            " - inbox: 3 item(s)",
            "Repaired 1 refcount(s) and cleared 1 dangling binding(s)",
        ]
    );
}

#[test]
fn what_was_collected_is_told() {
    assert_eq!(
        GcOutput { objects: 0, blobs: 0, bytes: 0 }.line(),
        "Nothing to collect: every body is still referenced"
    );
    assert_eq!(
        GcOutput { objects: 1, blobs: 2, bytes: 2048 }.line(),
        "Collected 1 object(s) and 2 blob file(s), freeing 2.0 KiB"
    );
}

#[test]
fn collections_are_tabled() {
    assert_eq!(CollectionsOutput(vec![]).table(), None);
    assert_eq!(CollectionsOutput::nothing(), "This store holds no collection yet");
    let (header, rows) = CollectionsOutput(vec![CollectionRow {
        id: "inbox".into(),
        kind: "message/rfc822".into(),
        name: "Inbox".into(),
        generation: 3,
        live: 2,
        probes: 1,
        retained: 0,
    }])
    .table()
    .expect("a table");
    assert_eq!(header, vec!["ID", "KIND", "NAME", "GEN", "LIVE", "PROBED", "RETAINED"]);
    assert_eq!(rows, vec![vec!["inbox", "message/rfc822", "Inbox", "3", "2", "1", "0"]]);
}

#[test]
fn a_store_is_described() {
    let collections = vec![
        StoreCollectionCount { id: "inbox".into(), live: 2, retained: 1 },
        StoreCollectionCount { id: "sent".into(), live: 3, retained: 0 },
    ];
    assert_eq!(count_all(&collections), (5, 1));
    let info = StoreInfoOutput {
        path: "/store".into(),
        schema_version: 1,
        sources: vec![],
        collections,
        live_items: 5,
        retained_items: 1,
        objects: 4,
        object_bytes: 4096,
        live_bytes: 3072,
        retained_bytes: 1024,
        next_change: 9,
        purges: 0,
    };
    assert_eq!(
        info.lines(),
        vec![
            "Store at /store",
            " - schema version: 1",
            " - sources: none yet",
            " - items: 5 live, 1 retained",
            " - objects: 4 (4.0 KiB total, 3.0 KiB live, 1.0 KiB retained)",
            " - change feed: next stamp 9, 0 purge(s)",
            "",
        ]
    );
    let (_, rows) = info.table().expect("a table");
    assert_eq!(rows[1], vec!["sent", "3", "0"]);
}

#[test]
fn a_queue_is_listed_in_append_order() {
    let pending = |id: i64, action: PimdirAction| PimdirPendingAction {
        id,
        created_at: "now".into(),
        producer: "phone".into(),
        action,
        attempts: 0,
    };
    let queue = QueueOutput::pending(&vec![
        PimdirQueueRead {
            collection: "sent".into(),
            actions: Some(vec![pending(5, PimdirAction::Remove { seq: 1 })]),
        },
        PimdirQueueRead {
            collection: "inbox".into(),
            actions: Some(vec![
                pending(2, PimdirAction::SetFlags {
                    seq: 4,
                    flags: PimdirFlags::from_iter(&["seen", "flagged"]),
                }),
                pending(7, PimdirAction::Move {
                    seq: 4,
                    to: PimdirCollectionId::from("archive"),
                }),
            ]),
        },
        PimdirQueueRead { collection: "broken".into(), actions: None },
    ]);
    let ids: Vec<i64> = queue.actions.iter().map(|row| row.id).collect();
    assert_eq!(ids, vec![2, 5, 7]);
    assert_eq!(queue.actions[0].summary, "seq 4 -> [flagged seen]");
    assert_eq!(queue.actions[1].summary, "seq 1");
    assert_eq!(queue.actions[2].summary, "seq 4 -> archive");
    assert_eq!(
        queue.footer(),
        vec!["The pending actions of broken could not be decoded and are not listed; the next \
              drain will park them"]
    );
    let (header, rows) = queue.table().expect("a table");
    assert_eq!(header.len(), 7);
    assert_eq!(rows[0][4], "set-flags");

    let parked = QueueOutput::parked(&vec![PimdirParkedAction {
        id: 3,
        created_at: "now".into(),
        producer: "phone".into(),
        collection: "inbox".into(),
        action: "add".into(),
        payload: "{}".into(),
        attempts: 2,
        error: "unknown seq: 9".into(),
    }]);
    let (header, rows) = parked.table().expect("a table");
    assert_eq!(header[7], "ERROR");
    assert_eq!(rows[0][7], "unknown seq: 9");
    assert_eq!(
        QueueOutput::parked(&vec![]).nothing(),
        "No parked action in this store's queue"
    );
    assert_eq!(QueueCancelOutput { id: 4 }.line(), "Dropped queued action 4");
    assert_eq!(QueueCancelOutput::question(4), "Drop queued action 4 for good?");
    assert_eq!(QueueCancelOutput::unknown(4), "no queued action with id 4");
}

/// One row more than asked for tells whether a page follows.
#[test]
fn a_page_says_where_the_next_one_starts() {
    let rows = |retained: bool| {
        vec![
            ItemRow::new("inbox", &item(1, retained), None),
            ItemRow::new("inbox", &item(2, retained), None),
            ItemRow::new("inbox", &item(3, retained), None),
        ]
    };
    assert_eq!(probe_limit(2), 3);
    assert_eq!(probe_limit(0), 2);
    let page = ItemsOutput::new("inbox".into(), true, rows(true), 2);
    assert_eq!(page.items.len(), 2);
    assert_eq!(page.next.as_deref(), Some("2"));
    assert_eq!(page.footer().as_deref(), Some("More items follow: continue with --after 2"));
    let page = ItemsOutput::new("inbox".into(), false, rows(false), 2);
    assert_eq!(page.next.as_deref(), Some("m1"));
    let page = ItemsOutput::new("inbox".into(), false, rows(false), 3);
    assert_eq!(page.next, None);
    let (header, cells) = page.table().expect("a table");
    assert_eq!(header, vec!["SEQ", "LINK ID", "FLAGS", "LEVEL", "OBJECT"]);
    assert_eq!(cells[0], vec!["1", "m1", "flagged seen", "full", "h1"]);
    assert_eq!(
        ItemsOutput::new("inbox".into(), true, vec![], 2).nothing(),
        "No retained item in inbox"
    );
    assert_eq!(retained_cursor("17"), Some(17));
    assert_eq!(retained_cursor("m1"), None);
    assert_eq!(flag_list(&PimdirFlags::Unknown), None);
}

#[test]
fn an_item_is_shown_with_its_bindings() {
    let binding = PimdirBinding {
        handle: PimdirHandle::from("l1"),
        base: Some(PimdirBase {
            flags: PimdirFlags::default(),
            revision: Some("r1".into()),
            object: None,
        }),
        conflicted: true,
        conflict_revision: Some("r2".into()),
        conflict_object: None,
        shared_object: None,
    };
    let show = ItemShowOutput {
        seq: 7,
        placements: vec![ItemPlacement {
            item: ItemRow::new("inbox", &item(7, true), None),
            bindings: vec![BindingRow::new("left", &binding)],
        }],
    };
    assert_eq!(
        show.lines(),
        vec![
            "Item 7 in inbox",
            " - link id: m1",
            " - flags: flagged seen",
            " - level: full",
            " - object: h1",
            " - size: 2.0 KiB",
            " - retained at: 2026-08-01T10:00:00Z",
            " - retained by: left",
            " - meta: -",
            " - binding left: l1",
            "    - base object: -",
            "    - base flags: -",
            "    - base revision: r1",
            "    - conflicted at revision: r2",
        ]
    );
}

#[test]
fn a_public_id_names_one_placement() {
    assert_eq!(
        one(&vec![], 7),
        Err("no item with seq 7 in this store".to_string())
    );
    assert_eq!(one(&vec![found(7, false)], 7), Ok(found(7, false)));
    let mut other = found(7, true);
    other.collection = "trash".into();
    assert_eq!(
        one(&vec![found(7, false), other], 7),
        Err(
            "seq 7 is placed in several collections (inbox, trash): pick one with --collection"
                .to_string()
        )
    );
}

#[test]
fn only_a_retained_item_is_restored_or_purged() {
    assert_eq!(
        restore_action(&found(7, false)),
        Err("seq 7 is already live in inbox: only a retained item can be restored".to_string())
    );
    let action = restore_action(&found(7, true)).expect("an action");
    assert_eq!(action.kind(), "add");
    assert_eq!(action.object_hash(), Some(&PimdirHash::from("h1")));
    assert_eq!(
        ItemPurgeOutput::question_one(&found(7, false)),
        Err(
            "seq 7 is live in inbox: purge only destroys retained items, remove it first"
                .to_string()
        )
    );
    assert!(ItemPurgeOutput::question_one(&found(7, true)).is_ok());

    assert_eq!(restore_status(true, true), RestoreStatus::Applied);
    assert_eq!(restore_status(true, false), RestoreStatus::Refused);
    assert_eq!(restore_status(false, false), RestoreStatus::Queued);
    let output = ItemRestoreOutput {
        seq: 7,
        collection: "inbox".into(),
        link_id: "m1".into(),
        action: 3,
        status: RestoreStatus::Queued,
    };
    assert_eq!(
        output.line(),
        "Restore of item 7 into inbox queued as action 3: another writer holds the store lock, so \
         it applies at the next sync"
    );
}

#[test]
fn a_purge_asks_and_tells() {
    assert_eq!(
        ItemPurgeOutput::question("2026", Some((2, 2048))),
        "Destroy 2 retained item(s) for good, releasing up to 2.0 KiB?"
    );
    assert_eq!(
        ItemPurgeOutput::question("2026", None),
        "Destroy every item retained before 2026 for good?"
    );
    assert_eq!(
        ItemPurgeOutput { cutoff: None, items: 2 }.lines(),
        vec!["Purged 2 item(s)", "Run `pimdir gc` to reclaim the bodies they released"]
    );
    assert_eq!(ItemPurgeOutput { cutoff: None, items: 0 }.lines(), vec!["Purged 0 item(s)"]);
}

#[test]
fn a_body_is_exported_where_there_is_one() {
    assert_eq!(export_body(&found(7, false)), Ok("h1".to_string()));
    let mut bare = found(7, false);
    bare.item.object = None;
    bare.item.level = PimdirLevel::Meta;
    assert_eq!(
        export_body(&bare),
        Err("seq 7 holds no body in inbox (its detail level is meta)".to_string())
    );
    let output = ItemExportOutput {
        seq: 7,
        collection: "inbox".into(),
        hash: "h1".into(),
        bytes: 1024,
        path: "/tmp/m1.eml".into(),
    };
    assert_eq!(output.line(), "Wrote 1.0 KiB of item 7 to /tmp/m1.eml");
}

#[test]
fn a_summary_is_told_column_by_column() {
    let summary = PimdirSummary::Contact(PimdirContactSummary {
        uid: Some("c1".into()),
        full_name: "Ada".into(),
        kind: None,
        org: None,
        emails: vec![PimdirAddress { address: "ada@x.y".into(), name: Some("Ada".into()) }],
    });
    assert_eq!(io_pimdir::cli::summary::table(&summary), "contact_summary");
    assert_eq!(
        io_pimdir::cli::summary::lines(&summary),
        vec![
            " - summary (contact_summary):",
            "    - uid: c1",
            "    - fn: Ada",
            "    - kind: -",
            "    - org: -",
            "    - email: Ada <ada@x.y>",
        ]
    );
}

#[test]
fn an_export_dumps_one_json_object_a_line() {
    assert_eq!(items_file(3, false), "items/0003.jsonl");
    assert_eq!(items_file(12, true), "items/0012.retained.jsonl");
    assert_eq!(
        item_line("inbox", &item(7, true), &None),
        "{\"collection\":\"inbox\",\"flags\":[\"flagged\",\"seen\"],\"level\":\"full\",\
         \"link_id\":\"m1\",\"meta\":null,\"object\":\"h1\",\
         \"retained_at\":\"2026-08-01T10:00:00Z\",\"retained_by\":\"left\",\"seq\":7}"
    );
    let mut hashes = TextSet::new();
    note_bodies(&mut hashes, &vec![item(1, false), item(2, false)]);
    assert_eq!(hashes.len(), 1);
    assert!(hashes.contains("h1"));
    let output = ExportOutput {
        dir: "/dump".into(),
        collections: 1,
        items: 2,
        objects: 1,
        bytes: 10,
        missing: vec!["h9".into()],
    };
    assert_eq!(
        output.lines()[0],
        "Exported 1 collection(s), 2 item(s) and 1 object(s) (10 B) to /dump"
    );
    assert!(output.lines()[1].starts_with("1 object(s) had no body"));
}
