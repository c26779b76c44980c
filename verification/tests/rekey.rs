use io_pimdir::{
    change::{PimdirDropReason, PimdirWriteOp},
    collection::PimdirCheckpoint,
    coroutine::{PimdirArg, PimdirArgError, PimdirCoroutine, PimdirCoroutineState, PimdirYield},
    load::PimdirLoaded,
    object::PimdirHash,
    placement::{
        PimdirBase, PimdirFlags, PimdirHandle, PimdirLevel, PimdirLinkId, PimdirPlacement,
        PimdirSortKey, PimdirStatus,
    },
    rekey::{PimdirRekey, PimdirRekeyReport, FETCH_CHUNK},
    remote::{PimdirFetchedItem, PimdirRemoteItem, PimdirRemoteSnapshot, PimdirTier},
};

fn kept(handle: &str, link: &str) -> PimdirPlacement {
    PimdirPlacement {
        collection: "inbox".into(),
        handle: PimdirHandle::from(handle),
        link_id: Some(PimdirLinkId::from(link)),
        object: Some(PimdirHash::from("h1")),
        level: PimdirLevel::Full,
        summary: None,
        sort_key: PimdirSortKey::default(),
        flags: PimdirFlags::default(),
        status: PimdirStatus::Clean,
        conflict_revision: None,
        conflict_object: None,
        base: Some(PimdirBase {
            flags: PimdirFlags::default(),
            revision: Some("r1".into()),
            object: Some(PimdirHash::from("h1")),
        }),
        origin: None,
    }
}

fn member(handle: &str, revision: Option<&str>) -> PimdirRemoteItem {
    PimdirRemoteItem {
        handle: PimdirHandle::from(handle),
        flags: PimdirFlags::default(),
        revision: revision.map(String::from),
    }
}

fn named(handle: &str, link: &str) -> PimdirFetchedItem {
    PimdirFetchedItem {
        handle: PimdirHandle::from(handle),
        link_id: PimdirLinkId::from(link),
        summary: None,
        sort_key: PimdirSortKey::default(),
        body: None,
        revision: None,
    }
}

/// Runs a rekey whole: what it writes and what it reports.
fn rekey(
    placements: Vec<PimdirPlacement>,
    items: Vec<PimdirRemoteItem>,
    fetched: Vec<PimdirFetchedItem>,
) -> (Vec<PimdirWriteOp>, PimdirRekeyReport) {
    let mut rekey = PimdirRekey::new("inbox".into());
    let mut arg = None;
    let mut writes = Vec::new();
    loop {
        arg = match rekey.resume(arg) {
            PimdirCoroutineState::Yielded(PimdirYield::WantsLoad { .. }) => {
                Some(PimdirArg::Load(PimdirLoaded {
                    placements: placements.clone(),
                    checkpoint: None,
                }))
            }
            PimdirCoroutineState::Yielded(PimdirYield::WantsEnumerate { cursor, .. }) => {
                assert_eq!(cursor, None, "the new spine is enumerated whole");
                Some(PimdirArg::Enumerate(PimdirRemoteSnapshot {
                    items: items.clone(),
                    vanished: vec![],
                    complete: true,
                    checkpoint: PimdirCheckpoint(b"tok".to_vec()),
                }))
            }
            PimdirCoroutineState::Yielded(PimdirYield::WantsFetch { handles, tier, .. }) => {
                assert_eq!(tier, PimdirTier::Meta);
                assert!(handles.len() <= FETCH_CHUNK);
                Some(PimdirArg::Fetch(
                    fetched
                        .iter()
                        .filter(|item| handles.contains(&item.handle))
                        .cloned()
                        .collect(),
                ))
            }
            PimdirCoroutineState::Yielded(PimdirYield::WantsWrite(ops)) => {
                writes = ops;
                Some(PimdirArg::Write)
            }
            PimdirCoroutineState::Complete(Ok(report)) => return (writes, report),
            state => panic!("unexpected state {state:?}"),
        };
    }
}

fn upserts(writes: &[PimdirWriteOp]) -> Vec<&PimdirPlacement> {
    writes
        .iter()
        .filter_map(|write| match write {
            PimdirWriteOp::UpsertPlacement(placement) => Some(placement),
            _ => None,
        })
        .collect()
}

fn drops(writes: &[PimdirWriteOp]) -> Vec<(&str, PimdirDropReason)> {
    writes
        .iter()
        .filter_map(|write| match write {
            PimdirWriteOp::DropPlacement { handle, reason, .. } => {
                Some((handle.as_str(), *reason))
            }
            _ => None,
        })
        .collect()
}

/// The cache survives the new handles without a refetch.
#[test]
fn an_item_is_carried_onto_its_new_handle() {
    let (writes, report) = rekey(
        vec![kept("1", "m1")],
        vec![member("101", Some("r1"))],
        vec![named("101", "m1")],
    );
    assert_eq!(report, PimdirRekeyReport { rekeyed: 1, pulled: 0, dropped: 0 });
    let carried = upserts(&writes)[0];
    assert_eq!(carried.handle.as_str(), "101");
    assert_eq!(carried.object, Some(PimdirHash::from("h1")));
    assert_eq!(carried.status, PimdirStatus::Clean);
    assert_eq!(drops(&writes), vec![("1", PimdirDropReason::Rekeyed)]);
    assert!(matches!(
        writes.last(),
        Some(PimdirWriteOp::SetCheckpoint { checkpoint, .. }) if checkpoint.0 == b"tok"
    ));
}

#[test]
fn a_new_member_is_pulled_and_a_gone_one_deleted() {
    let (writes, report) = rekey(
        vec![kept("1", "m1")],
        vec![member("102", None), member("103", None)],
        vec![named("102", "m2")],
    );
    assert_eq!(report, PimdirRekeyReport { rekeyed: 0, pulled: 2, dropped: 0 });
    let pulled = upserts(&writes);
    assert_eq!(pulled[0].link_id, Some(PimdirLinkId::from("m2")));
    assert_eq!(pulled[0].level, PimdirLevel::Meta);
    assert_eq!(pulled[1].link_id, None);
    assert_eq!(pulled[1].level, PimdirLevel::Probed);
    assert_eq!(drops(&writes), vec![("1", PimdirDropReason::Deleted)]);
}

/// A base never claims a revision whose body nobody read.
#[test]
fn a_member_edited_meanwhile_is_a_pull_or_a_conflict() {
    let (writes, _) = rekey(
        vec![kept("1", "m1")],
        vec![member("101", Some("r2"))],
        vec![named("101", "m1")],
    );
    let pulled = upserts(&writes)[0];
    assert_eq!((pulled.level, pulled.object.clone()), (PimdirLevel::Probed, None));
    let base = pulled.base.as_ref().expect("a base");
    assert_eq!((base.revision.as_deref(), base.object.clone()), (Some("r2"), None));

    let mut edited = kept("1", "m1");
    edited.object = Some(PimdirHash::from("h2"));
    edited.status = PimdirStatus::Dirty;
    let (writes, _) = rekey(
        vec![edited],
        vec![member("101", Some("r2"))],
        vec![named("101", "m1")],
    );
    let conflict = upserts(&writes)[0];
    assert_eq!(conflict.status, PimdirStatus::Conflict);
    assert_eq!(conflict.conflict_revision.as_deref(), Some("r2"));
    assert_eq!(conflict.object, Some(PimdirHash::from("h2")));
    let base = conflict.base.as_ref().expect("a base");
    assert_eq!(base.revision.as_deref(), Some("r1"));
}

/// An edit whose item is gone survives; other pending state is counted.
#[test]
fn an_edit_without_a_home_becomes_a_create() {
    let mut edited = kept("1", "m1");
    edited.object = Some(PimdirHash::from("h2"));
    edited.status = PimdirStatus::Dirty;
    let mut tombstone = kept("2", "m2");
    tombstone.status = PimdirStatus::Tombstone;
    let (writes, report) = rekey(vec![edited, tombstone], vec![], vec![]);
    assert_eq!(report, PimdirRekeyReport { rekeyed: 1, pulled: 0, dropped: 1 });
    let created = upserts(&writes)[0];
    assert_eq!(created.status, PimdirStatus::Created);
    assert_eq!(created.base, None);
    assert_eq!(drops(&writes), vec![("2", PimdirDropReason::Deleted)]);
}

/// Two copies of one identity stay two items.
#[test]
fn the_second_copy_of_an_identity_keeps_its_minted_key() {
    let (writes, report) = rekey(
        vec![kept("1", "m1"), kept("2", "dup:m1#2")],
        vec![member("102", Some("r1")), member("101", Some("r1"))],
        vec![named("101", "m1"), named("102", "m1")],
    );
    assert_eq!(report.rekeyed, 2);
    let carried = upserts(&writes);
    assert_eq!(carried[0].handle.as_str(), "101");
    assert_eq!(carried[0].link_id, Some(PimdirLinkId::from("m1")));
    assert_eq!(carried[1].handle.as_str(), "102");
    assert_eq!(carried[1].link_id, Some(PimdirLinkId::from("dup:m1#2")));
}

#[test]
fn a_rekey_resumed_out_of_turn_says_so() {
    let mut rekey = PimdirRekey::new("inbox".into());
    match rekey.resume(Some(PimdirArg::Write)) {
        PimdirCoroutineState::Complete(Err(PimdirArgError::UnexpectedArg)) => {}
        state => panic!("expected UnexpectedArg, got {state:?}"),
    }
    let mut rekey = PimdirRekey::new("inbox".into());
    let _ = rekey.resume(None);
    match rekey.resume(None) {
        PimdirCoroutineState::Complete(Err(PimdirArgError::MissingArg)) => {}
        state => panic!("expected MissingArg, got {state:?}"),
    }
}
