use io_pimdir::summary::{
    mail::{addresses, decode, has_attachment, header_fields, instant, split_headers},
    PimdirAddress, PimdirSummary,
};

#[test]
fn encoded_words_decode_in_both_encodings_and_join_across_whitespace() {
    assert_eq!(decode("=?UTF-8?B?UsOpdW5pb24=?="), "Réunion");
    assert_eq!(decode("=?ISO-8859-1?Q?Z=F6e_Br=FCck?="), "Zöe Brück");
    assert_eq!(decode("=?windows-1252?Q?=80_=93quoted=94?="), "€ “quoted”");
    assert_eq!(decode("=?UTF-8?Q?a?= =?UTF-8?Q?b?="), "ab");
    assert_eq!(decode("plain =?UTF-8?Q?text?= here"), "plain text here");
    assert_eq!(decode("=?bad?="), "=?bad?=");
}

#[test]
fn an_address_list_is_read_in_document_order_with_names_decoded() {
    let list = addresses(
        "\"Bob, Jr.\" <Bob@Example.org>, (note) carol@example.org, =?UTF-8?Q?Z=C3=B6e?= <z@x.y>",
    );
    assert_eq!(
        list,
        vec![
            PimdirAddress {
                address: "bob@example.org".into(),
                name: Some("Bob, Jr.".into()),
            },
            PimdirAddress {
                address: "carol@example.org".into(),
                name: None,
            },
            PimdirAddress {
                address: "z@x.y".into(),
                name: Some("Zöe".into()),
            },
        ]
    );
}

#[test]
fn a_group_is_flattened_and_an_empty_one_yields_nothing() {
    assert_eq!(
        addresses("team: a@x.y, b@x.y;, c@x.y")
            .iter()
            .map(|address| address.address.as_str())
            .collect::<Vec<_>>(),
        vec!["a@x.y", "b@x.y", "c@x.y"]
    );
    assert!(addresses("undisclosed-recipients:;").is_empty());
}

#[test]
fn a_date_is_read_to_utc_with_the_obsolete_zones() {
    assert_eq!(
        instant("Sat, 1 Aug 2026 12:00:00 +0200").as_deref(),
        Some("2026-08-01T10:00:00Z")
    );
    assert_eq!(
        instant("1 Aug 2026 10:00 GMT").as_deref(),
        Some("2026-08-01T10:00:00Z")
    );
    assert_eq!(instant("yesterday"), None);
}

#[test]
fn an_attachment_is_found_under_a_nested_multipart() {
    let body = b"Content-Type: multipart/mixed; boundary=\"outer\"\r\n\r\n--outer\r\nContent-Type: multipart/alternative; boundary=inner\r\n\r\n--inner\r\nContent-Type: text/plain\r\n\r\nhi\r\n--inner--\r\n--outer\r\nContent-Disposition: attachment; filename=a.pdf\r\n\r\n%PDF\r\n--outer--\r\n";
    let (headers, rest) = split_headers(body);
    assert!(has_attachment(&header_fields(headers), rest));

    let plain = b"Content-Type: text/plain\r\n\r\nhi\r\n";
    let (headers, rest) = split_headers(plain);
    assert!(!has_attachment(&header_fields(headers), rest));
}

#[test]
fn a_folded_header_keeps_its_whitespace() {
    let derivation = io_pimdir::summary::mail::derive(b"Subject: one\r\n\ttwo   three\r\nMessage-ID: <a@b>\r\n\r\n");
    let PimdirSummary::Mail(mail) = derivation.summary.unwrap() else {
        unreachable!("a message derives a mail summary");
    };
    assert_eq!(mail.subject, "one\ttwo   three");
}

#[test]
fn a_message_without_an_id_keys_on_what_identifies_it() {
    let derivation = io_pimdir::summary::mail::derive(
        b"From: a@x.y\r\nSubject: Hi\r\nDate: Sat, 1 Aug 2026 10:00:00 +0000\r\n\r\nbody",
    );
    assert_eq!(
        derivation.link_id.as_str(),
        "alt:Hi|2026-08-01T10:00:00Z|a@x.y"
    );
    assert_eq!(derivation.sort_key.as_str(), "2026-08-01T10:00:00Z");
}
