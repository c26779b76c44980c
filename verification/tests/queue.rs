use io_pimdir::{
    client::{
        producer::{
            add_key, drain_report, drain_step, enqueue, judge_action, overlaid_actions,
            pending_actions, stage_action, target_links, unpin, verdict, PimdirDrainReport,
            PimdirDrainStep, PimdirOutcome, PimdirQueueRow, PimdirStaged, PimdirVerdict,
        },
        write::PimdirRowOp,
        PimdirError,
    },
    change::PimdirWriteOp,
    codec::{action_to_payload, PimdirAction, PimdirActionError},
    collection::PimdirCollectionId,
    hub::{PimdirBinding, PimdirHub, PimdirHubConflict, PimdirHubItem, PimdirSourceId},
    object::{PimdirHash, PimdirObject},
    placement::{
        PimdirBase, PimdirFlags, PimdirHandle, PimdirLevel, PimdirLinkId, PimdirSortKey,
        PimdirStatus,
    },
    text_map::TextMap,
};

fn row(id: i64, action: &PimdirAction) -> PimdirQueueRow {
    PimdirQueueRow {
        id,
        created_at: "2026-08-01T10:00:00Z".into(),
        producer: "phone".into(),
        action: action.kind().into(),
        payload: action_to_payload(action),
        object_hash: action.object_hash().map(|hash| hash.0.clone()),
        attempts: 0,
    }
}

fn broken(id: i64) -> PimdirQueueRow {
    PimdirQueueRow {
        id,
        created_at: "2026-08-01T10:00:00Z".into(),
        producer: "phone".into(),
        action: "remove".into(),
        payload: "not json".into(),
        object_hash: None,
        attempts: 1,
    }
}

/// A hub with one item bound to `left`.
fn hub() -> PimdirHub {
    let mut sources = TextMap::new();
    sources.insert(
        "left".to_string(),
        PimdirBinding {
            handle: PimdirHandle::from("l1"),
            base: Some(PimdirBase {
                flags: PimdirFlags::default(),
                revision: None,
                object: None,
            }),
            conflicted: false,
            conflict_revision: None,
            conflict_object: None,
            shared_object: None,
        },
    );
    let mut items = TextMap::new();
    items.insert(
        "m1".to_string(),
        PimdirHubItem {
            flags: PimdirFlags::default(),
            object: None,
            summary: None,
            sort_key: PimdirSortKey::default(),
            level: PimdirLevel::Meta,
            deleted: false,
            conflicted: false,
            conflict_object: None,
            sources,
        },
    );
    PimdirHub {
        items,
        conflict: PimdirHubConflict::Manual,
    }
}

/// Stages an action on the one item of the hub.
fn staged(action: &PimdirAction, live: bool, link: Option<&str>, handle: Option<&str>) -> PimdirStaged {
    stage_action(
        &PimdirSourceId::from("left"),
        &PimdirCollectionId::from("inbox"),
        "message/rfc822",
        9,
        action,
        &Some(b"Message-ID: <a@b>\r\nSubject: Hi\r\n\r\n".to_vec()),
        live,
        &link.map(PimdirLinkId::from),
        &handle.map(PimdirHandle::from),
        &hub(),
        &PimdirHub::default(),
    )
}

#[test]
fn a_row_decodes_to_the_action_it_was_made_of() {
    let action = PimdirAction::SetFlags {
        seq: 4,
        flags: PimdirFlags::from_iter(&["seen"]),
    };
    let pending = row(7, &action).decode().expect("an action");
    assert_eq!((pending.id, pending.attempts), (7, 0));
    assert_eq!(pending.producer, "phone");
    assert_eq!(pending.action, action);
    assert_eq!(broken(8).decode(), Err(PimdirActionError::Json));
}

/// A drain stops at a row it cannot read; a reader shows what it can.
#[test]
fn a_broken_row_stops_a_drain_and_is_left_out_of_an_overlay() {
    let sound = PimdirAction::Remove { seq: 1 };
    let rows = vec![row(1, &sound), broken(2), row(3, &sound)];
    assert_eq!(
        pending_actions(&rows),
        Err(PimdirError::Action(PimdirActionError::Json))
    );
    let shown: Vec<i64> = overlaid_actions(&rows).iter().map(|action| action.id).collect();
    assert_eq!(shown, vec![1, 3]);
    assert_eq!(pending_actions(&vec![row(1, &sound)]).expect("actions").len(), 1);
}

/// The body is stored and pinned in the transaction of the row, and let go
/// when the row goes.
#[test]
fn an_enqueued_body_is_pinned_until_its_row_goes() {
    let action = PimdirAction::Add {
        link_id: Some(PimdirLinkId::from("m2")),
        flags: PimdirFlags::default(),
        object: Some(PimdirHash::from("h1")),
        handle: None,
    };
    let writes = enqueue(
        "phone",
        &Some("work".into()),
        "inbox",
        &action,
        &Some(PimdirObject { hash: PimdirHash::from("h1"), size: 4 }),
    );
    assert_eq!(writes.row.action, "add");
    assert_eq!(writes.row.object_hash.as_deref(), Some("h1"));
    assert_eq!(writes.row.payload, action_to_payload(&action));
    assert!(writes.before.contains(&PimdirRowOp::EnsureCollection {
        collection: "inbox".into(),
        account: Some("work".into()),
    }));
    assert!(writes.before.contains(&PimdirRowOp::StoreObject {
        hash: "h1".into(),
        size: 4,
        body: None,
    }));
    assert!(writes.after.contains(&PimdirRowOp::AdjustRefcount { hash: "h1".into(), delta: 1 }));

    assert_eq!(
        unpin(&Some("h1".into())),
        vec![PimdirRowOp::AdjustRefcount { hash: "h1".into(), delta: -1 }]
    );
    assert_eq!(unpin(&None), vec![]);
}

#[test]
fn an_add_is_keyed_by_its_intent_or_by_its_body() {
    let body = Some(b"Message-ID: <a@b>\r\n\r\n".to_vec());
    let mut add = PimdirAction::Add {
        link_id: Some(PimdirLinkId::from("m2")),
        flags: PimdirFlags::default(),
        object: Some(PimdirHash::from("h1")),
        handle: None,
    };
    assert_eq!(add_key("message/rfc822", &add, &body), Some(PimdirLinkId::from("m2")));
    if let PimdirAction::Add { link_id, .. } = &mut add {
        *link_id = None;
    }
    assert_eq!(add_key("message/rfc822", &add, &body), Some(PimdirLinkId::from("a@b")));
    assert_eq!(
        target_links(&PimdirLinkId::from("m1"), 9)[0],
        PimdirLinkId::from("m1")
    );
}

#[test]
fn a_flag_change_is_staged_on_the_sources_own_row() {
    let action = PimdirAction::SetFlags {
        seq: 1,
        flags: PimdirFlags::from_iter(&["seen"]),
    };
    let PimdirStaged::Writes(writes) = staged(&action, false, Some("m1"), Some("l1")) else {
        panic!("expected writes");
    };
    let PimdirWriteOp::UpsertPlacement(placement) = &writes[0] else {
        panic!("expected an upsert, got {:?}", writes[0]);
    };
    assert_eq!(placement.handle.as_str(), "l1");
    assert_eq!(placement.status, PimdirStatus::Dirty);
    assert!(placement.flags.contains("seen"));
}

/// An item that is gone is removed already; anything else has no target.
#[test]
fn an_unknown_seq_parks_what_it_cannot_remove() {
    assert_eq!(
        staged(&PimdirAction::Remove { seq: 5 }, false, None, None),
        PimdirStaged::Writes(vec![])
    );
    let flags = PimdirAction::SetFlags { seq: 5, flags: PimdirFlags::default() };
    assert_eq!(
        staged(&flags, false, None, None),
        PimdirStaged::Parked("unknown seq: 5".into())
    );
    assert_eq!(
        staged(&flags, false, Some("m1"), None),
        PimdirStaged::Skipped,
        "an item another source holds is that source's to drain"
    );
}

#[test]
fn an_add_is_staged_as_a_create_and_a_live_identity_is_left_alone() {
    let add = PimdirAction::Add {
        link_id: None,
        flags: PimdirFlags::from_iter(&["draft"]),
        object: Some(PimdirHash::from("h1")),
        handle: None,
    };
    let PimdirStaged::Writes(writes) = staged(&add, false, None, None) else {
        panic!("expected writes");
    };
    let PimdirWriteOp::UpsertPlacement(placement) = writes.last().expect("a write") else {
        panic!("expected an upsert");
    };
    assert_eq!(placement.status, PimdirStatus::Created);
    assert_eq!(placement.link_id, Some(PimdirLinkId::from("a@b")));
    assert_eq!(placement.object, Some(PimdirHash::from("h1")));
    assert!(placement.summary.is_some());

    assert!(!matches!(staged(&add, true, None, None), PimdirStaged::Skipped));
}

#[test]
fn a_move_is_a_create_there_and_a_tombstone_here() {
    let action = PimdirAction::Move { seq: 1, to: PimdirCollectionId::from("archive") };
    let PimdirStaged::Writes(writes) = staged(&action, false, Some("m1"), Some("l1")) else {
        panic!("expected writes");
    };
    let statuses: Vec<(&str, PimdirStatus)> = writes
        .iter()
        .map(|write| match write {
            PimdirWriteOp::UpsertPlacement(placement) => {
                (placement.collection.as_str(), placement.status)
            }
            other => panic!("expected an upsert, got {other:?}"),
        })
        .collect();
    assert_eq!(
        statuses,
        vec![("archive", PimdirStatus::Created), ("inbox", PimdirStatus::Tombstone)]
    );
}

/// What nobody here understands is left for whoever does; what is broken
/// is parked.
#[test]
fn a_drain_applies_skips_or_parks_a_row() {
    let remove = PimdirAction::Remove { seq: 1 };
    assert_eq!(drain_step(&row(1, &remove)), PimdirDrainStep::Apply(PimdirAction::Remove { seq: 1 }));
    assert!(matches!(drain_step(&broken(2)), PimdirDrainStep::Park(_)));
    let foreign = PimdirQueueRow {
        action: "submit".into(),
        payload: "{\"v\":1,\"to\":[\"a@b.c\"]}".into(),
        ..broken(3)
    };
    assert_eq!(drain_step(&foreign), PimdirDrainStep::Skip);
    assert!(matches!(
        judge_action(Err(PimdirActionError::MissingField("seq"))),
        PimdirDrainStep::Park(_)
    ));
}

/// A retryable failure stops the drain with its row untouched; one the
/// action cannot survive parks it.
#[test]
fn a_failed_row_is_parked_unless_a_retry_may_help() {
    assert_eq!(verdict(Ok(PimdirOutcome::Applied)), PimdirVerdict::Applied);
    assert_eq!(verdict(Ok(PimdirOutcome::Skipped)), PimdirVerdict::Skipped);
    assert_eq!(
        verdict(Ok(PimdirOutcome::Parked("no".into()))),
        PimdirVerdict::Parked("no".into())
    );
    assert_eq!(verdict(Err(PimdirError::Busy)), PimdirVerdict::Stopped(PimdirError::Busy));
    assert_eq!(
        verdict(Err(PimdirError::Uncreated)),
        PimdirVerdict::Parked(PimdirError::Uncreated.message())
    );

    assert_eq!(
        drain_report(&vec![
            PimdirVerdict::Applied,
            PimdirVerdict::Parked("no".into()),
            PimdirVerdict::Applied,
            PimdirVerdict::Skipped,
        ]),
        PimdirDrainReport { applied: 2, parked: 1, skipped: 1 }
    );
}
