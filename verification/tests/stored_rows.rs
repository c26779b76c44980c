use std::collections::BTreeMap;

use io_pimdir::{
    change::{PimdirDropReason, PimdirWriteOp},
    client::{
        load::{load, lookup_objects, read_hub, PimdirAddressRow, PimdirProbe, PimdirSummaryRow},
        rows::{
            attach_address, binding_columns, binding_from_row, item_columns, item_from_row,
            summary_columns, tables_of, PimdirBindingRow, PimdirItemRow, PimdirSummaryTable,
            PimdirValue,
        },
        write::{
            adjust_refcounts, batch_links, insert_item, is_derived_key, item_columns_eq,
            object_refs, plan, refuse_colliding_upserts, save_hub_diff, settle, write_summary,
            PimdirRowOp,
        },
        PimdirError,
    },
    collection::{PimdirCheckpoint, PimdirCollectionId},
    hub::{PimdirBinding, PimdirHub, PimdirHubConflict, PimdirHubItem, PimdirSourceId},
    load::PimdirLoadScope,
    object::{PimdirHash, PimdirObject},
    placement::{
        PimdirBase, PimdirFlags, PimdirHandle, PimdirLevel, PimdirLinkId, PimdirOrigin,
        PimdirPlacement, PimdirSortKey, PimdirStatus,
    },
    summary::{
        calendar::{PimdirEventSummary, PimdirTime},
        contact::PimdirContactSummary,
        mail::PimdirMailSummary,
        PimdirAddress, PimdirAddressRole, PimdirSummary,
    },
    text_map::{TextMap, TextSet},
};

fn address(address: &str, name: Option<&str>) -> PimdirAddress {
    PimdirAddress {
        address: address.into(),
        name: name.map(String::from),
    }
}

fn mail() -> PimdirMailSummary {
    PimdirMailSummary {
        message_id: Some("a@b".into()),
        in_reply_to: vec!["x@y".into()],
        subject: "Hi".into(),
        sender: Some("bob@x.y".into()),
        sender_name: Some("Bob".into()),
        date: Some("2026-08-01T10:00:00Z".into()),
        size: Some(42),
        attachment: Some(true),
        from: vec![address("bob@x.y", Some("Bob"))],
        to: vec![address("carol@x.y", None)],
        cc: vec![],
        bcc: vec![],
    }
}

fn binding(handle: &str, object: Option<&str>) -> PimdirBinding {
    PimdirBinding {
        handle: PimdirHandle::from(handle),
        base: Some(PimdirBase {
            flags: PimdirFlags::from_iter(&["seen"]),
            revision: Some("r1".into()),
            object: object.map(PimdirHash::from),
        }),
        conflicted: false,
        conflict_revision: None,
        conflict_object: None,
        shared_object: object.map(PimdirHash::from),
    }
}

fn item(object: Option<&str>, summary: Option<PimdirSummary>) -> PimdirHubItem {
    let mut sources = TextMap::new();
    sources.insert("left".to_string(), binding("l1", object));
    PimdirHubItem {
        flags: PimdirFlags::from_iter(&["seen"]),
        object: object.map(PimdirHash::from),
        summary,
        sort_key: PimdirSortKey::from("2026-08-01T10:00:00Z"),
        level: if object.is_some() { PimdirLevel::Full } else { PimdirLevel::Meta },
        deleted: false,
        conflicted: false,
        conflict_object: None,
        sources,
    }
}

fn hub(items: Vec<(&str, PimdirHubItem)>) -> PimdirHub {
    let mut all = TextMap::new();
    for (link, item) in items {
        all.insert(link.to_string(), item);
    }
    PimdirHub {
        items: all,
        conflict: PimdirHubConflict::Manual,
    }
}

fn upsert(handle: &str, link: &str, object: Option<&str>) -> PimdirPlacement {
    PimdirPlacement {
        collection: "inbox".into(),
        handle: PimdirHandle::from(handle),
        link_id: Some(PimdirLinkId::from(link)),
        object: object.map(PimdirHash::from),
        level: if object.is_some() { PimdirLevel::Full } else { PimdirLevel::Meta },
        summary: None,
        sort_key: PimdirSortKey::default(),
        flags: PimdirFlags::from_iter(&["seen"]),
        status: PimdirStatus::Clean,
        conflict_revision: None,
        conflict_object: None,
        base: Some(PimdirBase {
            flags: PimdirFlags::from_iter(&["seen"]),
            revision: None,
            object: object.map(PimdirHash::from),
        }),
        origin: None,
    }
}

fn nothing_licensed() -> TextSet {
    TextSet::new()
}

#[test]
fn an_item_row_reads_back_as_the_item_without_its_summary() {
    let held = item(Some("h1"), None);
    let row = item_columns("m1", &held);
    assert_eq!(
        row,
        PimdirItemRow {
            link_id: "m1".into(),
            flags: Some("[\"seen\"]".into()),
            object: Some("h1".into()),
            sort_key: "2026-08-01T10:00:00Z".into(),
            level: 2,
            deleted: 0,
            conflicted: 0,
            conflict_object: None,
        }
    );
    let (link, back) = item_from_row(row);
    assert_eq!(link.as_str(), "m1");
    assert_eq!(back.flags, held.flags);
    assert_eq!(back.object, held.object);
    assert_eq!(back.level, PimdirLevel::Full);
    assert!(back.sources.is_empty());
}

#[test]
fn a_binding_row_reads_back_whole_and_a_missing_base_stays_missing() {
    let mut held = binding("l1", Some("h1"));
    held.conflicted = true;
    held.conflict_revision = Some("r2".into());
    held.conflict_object = Some(PimdirHash::from("h2"));
    let (link, source, back) = binding_from_row(binding_columns("m1", "left", &held));
    assert_eq!((link.as_str(), source.as_str()), ("m1", "left"));
    assert_eq!(back, held);

    let mut unsynced = binding("l1", None);
    unsynced.base = None;
    let row = binding_columns("m1", "left", &unsynced);
    assert_eq!(row.base_present, 0);
    assert_eq!(binding_from_row(row).2, unsynced);
}

#[test]
fn a_summary_row_reads_back_and_its_people_are_attached() {
    let whole = PimdirSummary::Mail(mail());
    let row = summary_columns(&whole);
    let read = PimdirSummaryTable::Mail
        .read_row(&row, 0)
        .expect("a row of the table")
        .expect("a summary");
    let PimdirSummary::Mail(bare) = &read else {
        panic!("a mail summary, got {read:?}");
    };
    assert_eq!(bare.subject, "Hi");
    assert_eq!(bare.in_reply_to, vec!["x@y"]);
    assert!(bare.from.is_empty() && bare.to.is_empty());

    let read = attach_address(read, PimdirAddressRole::From, address("bob@x.y", Some("Bob")));
    let read = attach_address(read, PimdirAddressRole::To, address("carol@x.y", None));
    assert_eq!(read, whole);
}

#[test]
fn every_summary_kind_has_its_table() {
    let kinds = [
        (PimdirSummary::Mail(mail()), PimdirSummaryTable::Mail),
        (
            PimdirSummary::Contact(PimdirContactSummary::default()),
            PimdirSummaryTable::Contact,
        ),
        (
            PimdirSummary::Event(PimdirEventSummary {
                dtstart: Some(PimdirTime {
                    value: "20260801T120000".into(),
                    tzid: Some("Europe/Paris".into()),
                    date: false,
                }),
                recurring: Some(false),
                ..Default::default()
            }),
            PimdirSummaryTable::Event,
        ),
    ];
    for (summary, table) in kinds {
        assert_eq!(PimdirSummaryTable::of(&summary), table);
        let read = table.read_row(&summary_columns(&summary), 0);
        match (read, summary) {
            (Ok(Some(PimdirSummary::Event(read))), PimdirSummary::Event(event)) => {
                assert_eq!(read, event)
            }
            (Ok(Some(PimdirSummary::Contact(read))), PimdirSummary::Contact(contact)) => {
                assert_eq!(read, contact)
            }
            (Ok(Some(PimdirSummary::Mail(_))), PimdirSummary::Mail(_)) => {}
            (read, _) => panic!("another summary: {read:?}"),
        }
    }

    assert_eq!(tables_of("message/rfc822"), vec![PimdirSummaryTable::Mail]);
    assert_eq!(
        tables_of("text/calendar; charset=utf-8"),
        vec![
            PimdirSummaryTable::Event,
            PimdirSummaryTable::Task,
            PimdirSummaryTable::Journal
        ]
    );
    assert_eq!(tables_of("application/json").len(), 5, "an unknown kind may be any of them");
}

/// A row of the outer join that holds no summary, and a column of another
/// type.
#[test]
fn an_absent_summary_row_is_none_and_a_foreign_column_is_named() {
    let mut absent = summary_columns(&PimdirSummary::Mail(mail()));
    for value in absent.iter_mut() {
        *value = PimdirValue::Null;
    }
    assert_eq!(PimdirSummaryTable::Mail.read_row(&absent, 0), Ok(None));

    let mut foreign = summary_columns(&PimdirSummary::Mail(mail()));
    foreign[2] = PimdirValue::Integer(1);
    assert_eq!(PimdirSummaryTable::Mail.read_row(&foreign, 0), Err(2));
}

/// What a store wrote is what the next load reads.
#[test]
fn a_hub_reads_back_from_its_rows() {
    let held = hub(vec![
        ("m1", item(Some("h1"), Some(PimdirSummary::Mail(mail())))),
        ("m2", item(None, None)),
    ]);

    let mut items = Vec::new();
    let mut bindings = Vec::new();
    for i in 0..held.items.len() {
        let link = held.items.key_at(i);
        let item = held.items.value_at(i);
        items.push(item_columns(link, item));
        for j in 0..item.sources.len() {
            bindings.push(binding_columns(
                link,
                item.sources.key_at(j),
                item.sources.value_at(j),
            ));
        }
    }
    let mut bare = mail();
    bare.from = vec![];
    bare.to = vec![];
    let summaries = vec![PimdirSummaryRow {
        link_id: "m1".into(),
        summary: PimdirSummary::Mail(bare),
    }];
    let person = |role: &str, address: &str, name: Option<&str>| PimdirAddressRow {
        link_id: "m1".into(),
        role: role.into(),
        address: address.into(),
        name: name.map(String::from),
    };
    let addresses = vec![
        person("from", "bob@x.y", Some("Bob")),
        person("to", "carol@x.y", None),
        person("stranger", "x@y.z", None),
    ];

    let back = read_hub(&Some("manual".into()), &items, &bindings, &summaries, &addresses);
    assert_eq!(back, held);
    assert_eq!(
        read_hub(&Some("prefer-incoming".into()), &vec![], &vec![], &vec![], &vec![]).conflict,
        PimdirHubConflict::PreferIncoming
    );
    assert_eq!(
        read_hub(&None, &vec![], &vec![], &vec![], &vec![]).conflict,
        PimdirHubConflict::Manual
    );
}

#[test]
fn a_load_yields_the_sources_placements_and_its_probes() {
    let held = hub(vec![("m1", item(Some("h1"), None))]);
    let inbox = PimdirCollectionId::from("inbox");
    let left = PimdirSourceId::from("left");
    let probes = vec![PimdirProbe {
        handle: PimdirHandle::from("l9"),
        flags: PimdirFlags::Unknown,
    }];
    let checkpoint = Some(PimdirCheckpoint(b"tok".to_vec()));

    let all = load(
        &held,
        &inbox,
        &left,
        &PimdirLoadScope::All,
        &TextMap::new(),
        &TextMap::new(),
        &probes,
        checkpoint.clone(),
    );
    assert_eq!(all.placements.len(), 2);
    assert_eq!(all.placements[0].link_id, Some(PimdirLinkId::from("m1")));
    assert_eq!(all.placements[1].link_id, None);
    assert_eq!(all.placements[1].level, PimdirLevel::Probed);
    assert_eq!(all.checkpoint, checkpoint);

    let by_link = load(
        &held,
        &inbox,
        &left,
        &PimdirLoadScope::Links(vec![PimdirLinkId::from("m1")]),
        &TextMap::new(),
        &TextMap::new(),
        &probes,
        None,
    );
    assert_eq!(by_link.placements.len(), 1, "a probe has no identity to be asked by");
}

/// A pending copy names where it was copied from, so the push copies it
/// on the server.
#[test]
fn a_load_tells_where_a_create_comes_from_and_where_a_tombstone_goes() {
    let inbox = PimdirCollectionId::from("inbox");
    let right = PimdirSourceId::from("right");
    let held = hub(vec![("m1", item(Some("h1"), None))]);
    let mut origins = TextMap::new();
    origins.insert(
        "m1".to_string(),
        PimdirOrigin {
            collection: "archive".into(),
            handle: PimdirHandle::from("a1"),
        },
    );
    let created = load(
        &held,
        &inbox,
        &right,
        &PimdirLoadScope::All,
        &origins,
        &TextMap::new(),
        &vec![],
        None,
    );
    assert_eq!(created.placements[0].status, PimdirStatus::Created);
    let origin = created.placements[0].origin.as_ref().expect("an origin");
    assert_eq!(origin.collection.as_str(), "archive");

    let mut deleted = item(Some("h1"), None);
    deleted.deleted = true;
    let held = hub(vec![("m1", deleted)]);
    let mut destinations = TextMap::new();
    destinations.insert("m1".to_string(), PimdirCollectionId::from("trash"));
    let gone = load(
        &held,
        &inbox,
        &PimdirSourceId::from("left"),
        &PimdirLoadScope::All,
        &TextMap::new(),
        &destinations,
        &vec![],
        None,
    );
    assert_eq!(gone.placements[0].status, PimdirStatus::Tombstone);
    let origin = gone.placements[0].origin.as_ref().expect("a destination");
    assert_eq!(origin.collection.as_str(), "trash");
    assert_eq!(origin.handle.as_str(), "l1");
}

#[test]
fn a_lookup_answers_the_links_it_found() {
    let found = lookup_objects(&vec![
        (PimdirLinkId::from("m1"), PimdirHash::from("h1")),
        (PimdirLinkId::from("m2"), PimdirHash::from("h2")),
    ]);
    assert_eq!(found.len(), 2);
    assert_eq!(found.get("m2"), Some(&PimdirHash::from("h2")));
    assert_eq!(found.get("m3"), None);
}

#[test]
fn a_plan_writes_bodies_and_checkpoints_itself_and_batches_the_rest() {
    let ops = vec![
        PimdirWriteOp::StoreObject {
            object: PimdirObject { hash: PimdirHash::from("h1"), size: 4 },
            body: None,
        },
        PimdirWriteOp::UpsertPlacement(upsert("l1", "m1", Some("h1"))),
        PimdirWriteOp::SetCheckpoint {
            collection: "inbox".into(),
            checkpoint: PimdirCheckpoint(b"tok".to_vec()),
        },
    ];
    let plan = plan(
        &PimdirSourceId::from("left"),
        &Some("work".into()),
        &TextMap::new(),
        &ops,
    );
    assert!(plan.rows.contains(&PimdirRowOp::StoreObject {
        hash: "h1".into(),
        size: 4,
        body: None,
    }));
    assert!(plan.rows.contains(&PimdirRowOp::EnsureCollection {
        collection: "inbox".into(),
        account: Some("work".into()),
    }));
    assert!(plan.rows.contains(&PimdirRowOp::SetCheckpoint {
        collection: "inbox".into(),
        source: "left".into(),
        checkpoint: b"tok".to_vec(),
    }));
    assert_eq!(plan.hub.len(), 1);
    assert_eq!(plan.hub.get("inbox").expect("a batch").0.len(), 1);
}

/// A probe is a row of its own until an upgrade names it.
#[test]
fn a_probe_is_stored_apart_from_the_hub() {
    let mut probe = upsert("l9", "m9", None);
    probe.link_id = None;
    probe.level = PimdirLevel::Probed;
    let plan = plan(
        &PimdirSourceId::from("left"),
        &None,
        &TextMap::new(),
        &vec![PimdirWriteOp::UpsertPlacement(probe)],
    );
    assert!(plan.rows.contains(&PimdirRowOp::UpsertProbe {
        collection: "inbox".into(),
        source: "left".into(),
        handle: "l9".into(),
        flags: Some("[\"seen\"]".into()),
    }));
    assert!(plan.hub.is_empty());
}

/// Two upserts of one batch must not bind one identity to two handles.
#[test]
fn two_handles_claiming_one_identity_are_refused() {
    let left = PimdirSourceId::from("left");
    let one = PimdirWriteOp::UpsertPlacement(upsert("l1", "m1", None));
    let other = PimdirWriteOp::UpsertPlacement(upsert("l2", "m1", None));
    assert_eq!(
        refuse_colliding_upserts("inbox", &left, &vec![one.clone(), one.clone()]),
        Ok(())
    );
    assert_eq!(
        refuse_colliding_upserts("inbox", &left, &vec![one, other]),
        Err(PimdirError::Rebind {
            collection: "inbox".into(),
            link_id: "m1".into(),
            source: "left".into(),
            bound: "l1".into(),
            incoming: "l2".into(),
        })
    );
}

#[test]
fn a_batch_reads_only_the_items_it_touches() {
    let mut handles = TextMap::new();
    handles.insert("l2".to_string(), "m2".to_string());
    let mut bound = TextMap::new();
    bound.insert("inbox".to_string(), handles);
    let links = batch_links(
        "inbox",
        &bound,
        &vec![
            PimdirWriteOp::UpsertPlacement(upsert("l1", "m1", None)),
            PimdirWriteOp::DropPlacement {
                collection: "inbox".into(),
                handle: PimdirHandle::from("l2"),
                reason: PimdirDropReason::Deleted,
            },
        ],
    );
    assert_eq!(links, vec!["m1", "m2"]);
}

#[test]
fn matching_columns_are_not_rewritten() {
    let a = item(Some("h1"), None);
    let mut b = item(Some("h1"), Some(PimdirSummary::Mail(mail())));
    assert!(item_columns_eq(&a, &b), "a summary is a row of its own");
    b.sort_key = PimdirSortKey::from("2026-08-02");
    assert!(!item_columns_eq(&a, &b));
}

#[test]
fn a_summary_is_written_once_and_a_changed_one_replaces_its_people() {
    let mut rows = Vec::new();
    let whole = Some(PimdirSummary::Mail(mail()));
    assert!(!write_summary(&mut rows, "inbox", "m1", &whole, &whole));
    assert!(rows.is_empty());

    assert!(write_summary(&mut rows, "inbox", "m1", &None, &whole));
    assert!(rows.iter().any(|row| matches!(
        row,
        PimdirRowOp::UpsertSummary { link_id, table: PimdirSummaryTable::Mail, .. }
            if link_id == "m1"
    )));
    let people: Vec<(&str, i64, &str)> = rows
        .iter()
        .filter_map(|row| match row {
            PimdirRowOp::InsertAddress { role, position, address, .. } => {
                Some((role.as_str(), *position, address.as_str()))
            }
            _ => None,
        })
        .collect();
    assert_eq!(people, vec![("from", 0, "bob@x.y"), ("to", 0, "carol@x.y")]);
}

/// The whole point of the diff: a load that changed nothing writes nothing.
#[test]
fn an_unchanged_hub_moves_no_row() {
    let held = hub(vec![("m1", item(Some("h1"), Some(PimdirSummary::Mail(mail()))))]);
    let rows = save_hub_diff(
        "inbox",
        &PimdirSourceId::from("left"),
        &held,
        &held,
        &nothing_licensed(),
    );
    assert_eq!(rows, Ok(vec![]));
}

#[test]
fn a_new_item_is_admitted_with_its_bindings() {
    let before = PimdirHub::default();
    let after = hub(vec![("m1", item(Some("h1"), None))]);
    let rows = save_hub_diff(
        "inbox",
        &PimdirSourceId::from("left"),
        &before,
        &after,
        &nothing_licensed(),
    )
    .expect("rows");
    assert!(rows.iter().any(|row| matches!(
        row,
        PimdirRowOp::AdmitItem { row, bindings, .. }
            if row.link_id == "m1" && bindings.len() == 1 && bindings[0].handle == "l1"
    )));
}

/// A binding pins one handle: moving it takes a license the batch gave.
#[test]
fn a_binding_moves_to_another_handle_only_where_licensed() {
    let left = PimdirSourceId::from("left");
    let before = hub(vec![("m1", item(Some("h1"), None))]);
    let mut moved = item(Some("h1"), None);
    moved.sources.insert("left".to_string(), binding("l2", Some("h1")));
    let after = hub(vec![("m1", moved)]);

    assert_eq!(
        save_hub_diff("inbox", &left, &before, &after, &nothing_licensed()),
        Err(PimdirError::Rebind {
            collection: "inbox".into(),
            link_id: "m1".into(),
            source: "left".into(),
            bound: "l1".into(),
            incoming: "l2".into(),
        })
    );

    let mut licensed = TextSet::new();
    licensed.insert("l1".to_string());
    assert!(save_hub_diff("inbox", &left, &before, &after, &licensed).is_ok());
}

#[test]
fn refcounts_follow_the_references() {
    let before = hub(vec![("m1", item(Some("h1"), None))]);
    let refs = object_refs(&before);
    assert_eq!(refs.iter().filter(|hash| hash.as_str() == "h1").count(), 2, "the item's and the base's");

    let rows = adjust_refcounts(
        &vec!["h1".to_string(), "h2".to_string()],
        &vec!["h2".to_string(), "h3".to_string(), "h3".to_string()],
    );
    assert_eq!(
        rows,
        vec![
            PimdirRowOp::AdjustRefcount { hash: "h1".into(), delta: -1 },
            PimdirRowOp::AdjustRefcount { hash: "h3".into(), delta: 2 },
        ]
    );
}

#[test]
fn a_batch_settles_into_rows_and_refcounts() {
    let before = hub(vec![("m1", item(None, None))]);
    let rows = settle(
        "inbox",
        &PimdirSourceId::from("left"),
        &before,
        &vec![PimdirWriteOp::UpsertPlacement(upsert("l1", "m1", Some("h1")))],
        &nothing_licensed(),
    )
    .expect("rows");
    assert!(rows.iter().any(|row| matches!(
        row,
        PimdirRowOp::UpdateItem { row, .. } if row.object.as_deref() == Some("h1")
    )));
    assert!(rows.iter().any(|row| matches!(
        row,
        PimdirRowOp::AdjustRefcount { hash, delta } if hash == "h1" && *delta > 0
    )));
}

#[test]
fn a_key_the_store_made_up_is_told_apart() {
    assert!(is_derived_key("dup:m1#l2"));
    assert!(is_derived_key("hash:abc"));
    assert!(is_derived_key("alt:Hi|2026|a@x.y"));
    assert!(!is_derived_key("m1"));
}

/// A retained row of the same key is brought back rather than inserted.
#[test]
fn an_admitted_item_revives_the_retained_row_of_its_key() {
    let held = item(Some("h1"), None);
    let row = || item_columns("m1", &held);
    let bindings = || -> Vec<PimdirBindingRow> {
        vec![binding_columns("m1", "left", held.sources.get("left").expect("bound"))]
    };

    let fresh = insert_item("inbox", row(), bindings(), None, 7);
    assert!(fresh.iter().any(|op| matches!(op, PimdirRowOp::InsertItem { seq: 7, .. })));
    assert!(fresh.iter().any(|op| matches!(op, PimdirRowOp::InsertBinding { .. })));

    let revived = insert_item(
        "inbox",
        row(),
        bindings(),
        Some((Some("h0".into()), None)),
        7,
    );
    assert!(revived.iter().any(|op| matches!(op, PimdirRowOp::ReviveItem { .. })));
    assert!(!revived.iter().any(|op| matches!(op, PimdirRowOp::InsertItem { .. })));
    assert!(revived.contains(&PimdirRowOp::AdjustRefcount { hash: "h0".into(), delta: -1 }));
}

/// The item and binding tables, by their keys.
struct Tables {
    items: BTreeMap<String, PimdirItemRow>,
    bindings: BTreeMap<(String, String), PimdirBindingRow>,
}

impl Tables {
    fn run(&mut self, rows: &[PimdirRowOp]) {
        for op in rows {
            match op {
                PimdirRowOp::AdmitItem { row, bindings, .. } => {
                    self.items.insert(row.link_id.clone(), row.clone());
                    for row in bindings {
                        self.bind(row);
                    }
                }
                PimdirRowOp::UpdateItem { row, .. } => {
                    self.items.insert(row.link_id.clone(), row.clone());
                }
                PimdirRowOp::InsertBinding { row, .. } => self.bind(row),
                PimdirRowOp::UpdateBinding { row, .. } => {
                    let key = (row.link_id.clone(), row.source.clone());
                    assert_eq!(self.bindings[&key].handle, row.handle);
                    self.bindings.insert(key, row.clone());
                }
                PimdirRowOp::DeleteBinding { link_id, source, .. } => {
                    self.bindings.remove(&(link_id.clone(), source.clone()));
                }
                PimdirRowOp::DeleteItemBindings { link_id, .. } => {
                    self.bindings.retain(|key, _| key.0 != *link_id);
                }
                PimdirRowOp::RetainItem { link_id, .. } => {
                    self.items.remove(link_id);
                }
                _ => {}
            }
        }
    }

    fn bind(&mut self, row: &PimdirBindingRow) {
        assert!(
            self.bindings
                .values()
                .all(|held| held.source != row.source || held.handle != row.handle),
            "a handle names one item per source"
        );
        self.bindings
            .insert((row.link_id.clone(), row.source.clone()), row.clone());
    }

    fn hub(&self) -> PimdirHub {
        read_hub(
            &Some("manual".to_string()),
            &self.items.values().cloned().collect(),
            &self.bindings.values().cloned().collect(),
            &vec![],
            &vec![],
        )
    }
}

#[test]
fn a_settled_batch_is_read_back() {
    let source = PimdirSourceId::from("left");
    let mut tables = Tables {
        items: BTreeMap::new(),
        bindings: BTreeMap::new(),
    };
    let batches = [
        vec![
            PimdirWriteOp::UpsertPlacement(upsert("l1", "a", Some("h1"))),
            PimdirWriteOp::UpsertPlacement(upsert("l2", "b", None)),
        ],
        vec![
            PimdirWriteOp::UpsertPlacement(upsert("l2", "b", Some("h2"))),
            PimdirWriteOp::UpsertPlacement(upsert("l3", "c", None)),
        ],
        // The handle of one item becomes that of another.
        vec![
            PimdirWriteOp::DropPlacement {
                collection: "inbox".into(),
                handle: PimdirHandle::from("l3"),
                reason: PimdirDropReason::Deleted,
            },
            PimdirWriteOp::UpsertPlacement(upsert("l3", "aa", None)),
        ],
    ];
    for ops in batches {
        let before = tables.hub();
        let rows = settle("inbox", &source, &before, &ops, &nothing_licensed()).unwrap();
        tables.run(&rows);
        let mut after = before.clone();
        after.absorb(&source, &ops);
        let read = tables.hub();
        for i in 0..after.items.len() {
            let link = after.items.key_at(i);
            let item = after.items.value_at(i);
            match read.items.get(link) {
                Some(held) => assert_eq!(held, item),
                None => assert_eq!(item.sources.len(), 0, "{link} is bound and was not stored"),
            }
        }
    }
    let read = tables.hub();
    let links: Vec<&String> = (0..read.items.len()).map(|i| read.items.key_at(i)).collect();
    assert_eq!(links, ["a", "aa", "b"]);
}
