use io_pimdir::{
    codec::{
        action_from_payload, action_to_payload, conflict_from_str, conflict_to_str,
        flags_from_json, flags_to_json, ids_from_json, ids_to_json, level_from_int, level_to_int,
        PimdirAction, PimdirActionError,
    },
    collection::PimdirCollectionId,
    hub::PimdirHubConflict,
    object::PimdirHash,
    placement::{PimdirFlags, PimdirHandle, PimdirLevel, PimdirLinkId},
};

#[test]
fn a_flag_set_round_trips_and_keeps_its_two_absences_apart() {
    let flags = PimdirFlags::from_iter(&["\\Seen", "$flagged", "a\"b"]);
    let json = flags_to_json(&flags).expect("a known set encodes");
    assert_eq!(flags_from_json(Some(&json)), flags);
    assert!(json.contains("\\\\Seen"));

    assert_eq!(flags_to_json(&PimdirFlags::Unknown), None);
    assert_eq!(flags_from_json(None), PimdirFlags::Unknown);
    assert_eq!(
        flags_to_json(&PimdirFlags::default()).as_deref(),
        Some("[]")
    );
    assert_eq!(flags_from_json(Some("[]")), PimdirFlags::default());
    assert_eq!(flags_from_json(Some("not json")), PimdirFlags::Unknown);
}

#[test]
fn levels_and_policies_round_trip() {
    for level in [PimdirLevel::Probed, PimdirLevel::Meta, PimdirLevel::Full] {
        assert_eq!(level_from_int(level_to_int(level)), level);
    }
    for policy in [
        PimdirHubConflict::Manual,
        PimdirHubConflict::PreferIncoming,
        PimdirHubConflict::PreferExisting,
    ] {
        assert_eq!(conflict_from_str(conflict_to_str(policy)), policy);
    }
    assert_eq!(
        ids_from_json(&ids_to_json(&vec!["a".into(), "b".into()])),
        vec!["a", "b"]
    );
}

#[test]
fn every_action_kind_round_trips_through_its_payload() {
    let actions = [
        PimdirAction::Add {
            link_id: Some(PimdirLinkId("mid:new".into())),
            flags: PimdirFlags::from_iter(&["\\Draft"]),
            object: Some(PimdirHash("cafebabe".into())),
            handle: Some(PimdirHandle("draft-1".into())),
        },
        PimdirAction::Add {
            link_id: None,
            flags: PimdirFlags::default(),
            object: None,
            handle: None,
        },
        PimdirAction::SetFlags {
            seq: 4,
            flags: PimdirFlags::from_iter(&["\\Seen", "$flagged"]),
        },
        PimdirAction::Remove { seq: 5 },
        PimdirAction::Move {
            seq: 6,
            to: PimdirCollectionId("Archive".into()),
        },
        PimdirAction::Copy {
            seq: 7,
            to: PimdirCollectionId("Backup".into()),
        },
        PimdirAction::Update {
            seq: 8,
            object: PimdirHash("beef0000".into()),
        },
    ];
    for action in actions {
        let payload = action_to_payload(&action);
        assert!(payload.contains("\"v\":1"), "versioned: {payload}");
        let decoded = action_from_payload(action.kind(), &payload).unwrap();
        assert_eq!(decoded, action, "round-trip of {payload}");
    }
}

#[test]
fn a_malformed_payload_errors_and_a_foreign_kind_survives_whole() {
    assert_eq!(
        action_from_payload("remove", "not json"),
        Err(PimdirActionError::Json)
    );
    assert_eq!(
        action_from_payload("remove", "{\"v\":2,\"seq\":1}"),
        Err(PimdirActionError::UnknownVersion(Some(2)))
    );
    assert_eq!(
        action_from_payload("remove", "{\"v\":1}"),
        Err(PimdirActionError::MissingField("seq"))
    );

    let payload = "{\"v\":1,\"object\":\"cafebabe\",\"to\":[\"a@b.c\"]}";
    let decoded = action_from_payload("submit", payload).unwrap();
    assert_eq!(decoded.kind(), "submit");
    assert_eq!(decoded.object_hash(), Some(&PimdirHash("cafebabe".into())));
    assert_eq!(action_to_payload(&decoded), payload);
}
