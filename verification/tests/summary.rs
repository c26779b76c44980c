use io_pimdir::summary::{PimdirAddress, PimdirAddressRole};

#[test]
fn a_canonical_address_is_the_lowercased_addr_spec_alone() {
    assert_eq!(
        PimdirAddress::canonical("Alice Example <Alice@Example.ORG>"),
        "alice@example.org"
    );
    assert_eq!(PimdirAddress::canonical("mailto:Bob@x.y"), "bob@x.y");
    assert_eq!(PimdirAddress::canonical(" carol@x.y "), "carol@x.y");
}

#[test]
fn a_role_round_trips_through_its_column_spelling() {
    for role in [
        PimdirAddressRole::From,
        PimdirAddressRole::To,
        PimdirAddressRole::Cc,
        PimdirAddressRole::Bcc,
        PimdirAddressRole::Email,
        PimdirAddressRole::Organizer,
        PimdirAddressRole::Attendee,
    ] {
        assert_eq!(PimdirAddressRole::parse(role.as_str()), Some(role));
    }
    assert_eq!(PimdirAddressRole::parse("sender"), None);
}

#[test]
fn an_unknown_kind_derives_nothing() {
    assert_eq!(io_pimdir::summary::derive("application/json", b"{}"), None);
    assert!(io_pimdir::summary::derive("text/vcard; charset=utf-8", b"BEGIN:VCARD\r\nEND:VCARD\r\n").is_some());
}
