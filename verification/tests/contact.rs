use io_pimdir::summary::{
    contact::{components, unescape, PimdirContentLine},
    PimdirSummary,
};

#[test]
fn a_content_line_splits_on_the_first_unquoted_colon() {
    let line = PimdirContentLine::parse("item1.URL;TYPE=\"a:b\";X=1:https://x.y").unwrap();
    assert_eq!(line.name, "URL");
    assert_eq!(line.param("TYPE"), Some("a:b"));
    assert_eq!(line.param("X"), Some("1"));
    assert_eq!(line.value, "https://x.y");
    assert_eq!(PimdirContentLine::parse("no colon"), None);
}

#[test]
fn text_values_unescape_and_structured_ones_split_on_unescaped_semicolons() {
    assert_eq!(unescape("a\\,b\\;c\\\\d\\ne"), "a,b;c\\d\ne");
    assert_eq!(
        components("Acme\\; Inc;Sales"),
        vec!["Acme\\; Inc", "Sales"]
    );
}

#[test]
fn a_card_derives_its_row_and_a_uid_less_one_a_hash_key() {
    let card = b"BEGIN:VCARD\r\nUID:c1\r\nFN:Ada\\, Lovelace\r\nKIND:Individual\r\nORG:Analytical\\, Engines;R&D\r\nEMAIL:Ada@Example.org\r\nEND:VCARD\r\n";
    let derivation = io_pimdir::summary::contact::derive(card);
    let Some(PimdirSummary::Contact(summary)) = derivation.summary else {
        panic!("a contact summary");
    };
    assert_eq!(derivation.link_id.as_str(), "c1");
    assert_eq!(summary.full_name, "Ada, Lovelace");
    assert_eq!(summary.kind.as_deref(), Some("individual"));
    assert_eq!(summary.org.as_deref(), Some("Analytical, Engines"));
    assert_eq!(summary.emails[0].address, "ada@example.org");
    assert_eq!(derivation.sort_key.as_str(), "ada, lovelace");

    let anonymous = io_pimdir::summary::contact::derive(b"BEGIN:VCARD\r\nEND:VCARD\r\n");
    assert!(anonymous.link_id.as_str().starts_with("hash:"));
    assert_eq!(anonymous.sort_key.as_str(), "");
}
