use std::collections::BTreeSet;

use io_pimdir::{
    change::{PimdirChange, PimdirChangeKey, PimdirChangeKind},
    collection::PimdirCollectionId,
    object::PimdirHash,
    placement::{PimdirFlags, PimdirHandle, PimdirLinkId, PimdirOrigin},
};

fn key(collection: &PimdirCollectionId, kind: PimdirChangeKind) -> PimdirChangeKey {
    PimdirChange::new(collection, kind).key
}

fn set_flags(handle: &str, flags: &[&str]) -> PimdirChangeKind {
    PimdirChangeKind::SetFlags {
        handle: PimdirHandle::from(handle),
        flags: PimdirFlags::from_iter(flags),
    }
}

fn update(handle: &str, object: &str, if_match: Option<&str>) -> PimdirChangeKind {
    PimdirChangeKind::Update {
        handle: PimdirHandle::from(handle),
        object: PimdirHash::from(object),
        if_match: if_match.map(String::from),
    }
}

#[test]
fn the_same_derived_change_keys_the_same() {
    let inbox = PimdirCollectionId::from("inbox");

    assert_eq!(
        key(&inbox, set_flags("1", &["seen"])),
        key(&inbox, set_flags("1", &["seen"])),
    );
}

#[test]
fn a_key_separates_collection_handle_kind_and_target_state() {
    let inbox = PimdirCollectionId::from("inbox");
    let archive = PimdirCollectionId::from("archive");

    let keys: Vec<PimdirChangeKey> = vec![
        key(&inbox, set_flags("1", &["seen"])),
        key(&archive, set_flags("1", &["seen"])),
        key(&inbox, set_flags("2", &["seen"])),
        key(&inbox, set_flags("1", &["flagged"])),
        key(&inbox, set_flags("1", &["seen", "flagged"])),
        key(&inbox, set_flags("1", &[])),
        key(&inbox, update("1", "aaa", None)),
        key(&inbox, update("1", "bbb", None)),
        key(
            &inbox,
            PimdirChangeKind::Remove {
                handle: PimdirHandle::from("1"),
                to: None,
                link_id: None,
                if_match: None,
            },
        ),
        key(
            &inbox,
            PimdirChangeKind::Remove {
                handle: PimdirHandle::from("1"),
                to: Some(archive.clone()),
                link_id: None,
                if_match: None,
            },
        ),
        key(
            &inbox,
            PimdirChangeKind::Add {
                handle: PimdirHandle::from("1"),
                link_id: None,
                flags: PimdirFlags::default(),
                origin: None,
                object: None,
            },
        ),
        key(
            &inbox,
            PimdirChangeKind::Add {
                handle: PimdirHandle::from("1"),
                link_id: Some(PimdirLinkId::from("mid")),
                flags: PimdirFlags::default(),
                origin: None,
                object: None,
            },
        ),
        key(
            &inbox,
            PimdirChangeKind::Add {
                handle: PimdirHandle::from("1"),
                link_id: None,
                flags: PimdirFlags::default(),
                origin: Some(PimdirOrigin {
                    collection: archive.clone(),
                    handle: PimdirHandle::from("9"),
                }),
                object: None,
            },
        ),
        key(
            &inbox,
            PimdirChangeKind::Add {
                handle: PimdirHandle::from("1"),
                link_id: None,
                flags: PimdirFlags::default(),
                origin: None,
                object: Some(PimdirHash::from("aaa")),
            },
        ),
    ];

    let distinct: BTreeSet<&PimdirChangeKey> = keys.iter().collect();
    assert_eq!(distinct.len(), keys.len(), "keys collided: {keys:?}");
}

#[test]
fn a_precondition_is_not_part_of_the_key() {
    let inbox = PimdirCollectionId::from("inbox");
    let keyed = key(&inbox, update("1", "aaa", None));

    assert_eq!(key(&inbox, update("1", "aaa", Some("r1"))), keyed);
    assert_eq!(key(&inbox, update("1", "aaa", Some("r2"))), keyed);
}

#[test]
fn an_unknown_flag_set_does_not_key_as_an_empty_one() {
    let inbox = PimdirCollectionId::from("inbox");
    let unknown = PimdirChangeKind::SetFlags {
        handle: PimdirHandle::from("1"),
        flags: PimdirFlags::Unknown,
    };

    assert_ne!(key(&inbox, unknown), key(&inbox, set_flags("1", &[])));
}
