use io_pimdir::{
    codec::{action_from_payload, PimdirAction, PimdirActionError},
    fnv::{hex_text, Fnv},
    hash::{base32, PimdirHashAlgo},
    id_map::IdMap,
    placement::{PimdirFlags, PimdirHandle, PimdirLinkId},
    scan::{decimal, parse_signed, parse_unsigned, words},
    summary::{
        contact::unescape,
        hash_key,
        time::{
            civil_from_days, days_from_civil, days_in_month, digits, rfc3339, unix, weekday,
        },
        unfold,
    },
    text_map::{TextMap, TextSet},
};

#[test]
fn a_text_map_keeps_its_keys_in_order() {
    let mut map: TextMap<String> = TextMap::new();
    for key in ["b", "a", "\u{e9}", "c"] {
        map.insert(key.to_string(), key.to_uppercase());
    }
    map.insert("a".to_string(), "again".to_string());
    assert_eq!(map.len(), 4);
    let keys: Vec<&str> = (0..4).map(|i| map.key_at(i).as_str()).collect();
    assert_eq!(keys, vec!["a", "b", "c", "\u{e9}"]);
    assert_eq!(map.get("a").map(String::as_str), Some("again"));
    assert_eq!(map.remove("b").as_deref(), Some("B"));
    assert_eq!(map.remove("b"), None);
    assert!(!map.contains_key("b"));
}

#[test]
fn a_text_set_holds_each_text_once() {
    let mut set = TextSet::new();
    set.insert("b".to_string());
    set.insert("a".to_string());
    set.insert("b".to_string());
    assert_eq!(set.len(), 2);
    assert_eq!(set.at(0), "a");
    let mut other = TextSet::new();
    other.insert("a".to_string());
    assert!(!set.same(&other));
    set.remove("b");
    assert!(set.same(&other));
}

#[test]
fn an_id_map_keeps_its_keys_in_order() {
    let mut map: IdMap<String> = IdMap::new();
    map.insert(7, "seven".to_string());
    map.insert(-1, "minus".to_string());
    map.insert(7, "again".to_string());
    assert_eq!((map.len(), map.key_at(0), map.key_at(1)), (2, -1, 7));
    assert_eq!(map.value_at(1), "again");
    assert_eq!(map.remove(7).as_deref(), Some("again"));
    assert_eq!(map.get(7), None);
}

/// A key is claimed until it is free.
#[test]
fn a_minted_key_is_minted_again_where_it_is_taken() {
    let link = PimdirLinkId::from("m1");
    let handle = PimdirHandle::from("l2");
    assert_eq!(link.minted(&handle).as_str(), "dup:m1#l2");
    let mut taken = TextSet::new();
    assert_eq!(link.claim_among(&handle, &taken).as_str(), "m1");
    taken.insert("m1".to_string());
    assert_eq!(link.claim_among(&handle, &taken).as_str(), "dup:m1#l2");
    taken.insert("dup:m1#l2".to_string());
    let third = link.claim_among(&handle, &taken);
    assert!(!taken.contains(third.as_str()));
    assert_eq!(link.claim(&handle, |key| taken.contains(key.as_str())), third);
}

#[test]
fn a_merge_does_not_care_which_side_is_which() {
    let base = PimdirFlags::from_iter(&["a", "b"]);
    let local = PimdirFlags::from_iter(&["b", "c"]);
    let remote = PimdirFlags::from_iter(&["a", "b", "d"]);
    let merged = PimdirFlags::merge(&base, &local, &remote);
    assert_eq!(merged, PimdirFlags::merge(&base, &remote, &local));
    assert_eq!(merged, PimdirFlags::from_iter(&["b", "c", "d"]));
}

#[test]
fn a_digest_is_named_in_base32() {
    assert_eq!(PimdirHashAlgo::Sha256_128.hash(b"").0, "4oymiquy7qobjgx36tejs35zeq");
    assert_eq!(PimdirHashAlgo::Sha256_128.hash(b"pimdir").0, "at2oyjdt2c5qieqinem3ow7osa");
    assert_eq!(
        PimdirHashAlgo::Blake3.hash(b"").0,
        "v4jutopv7gq2nicajxvdnxgjjgn4wjojvxarfn6mtkj4vza7gjra"
    );
    assert_eq!(base32(b""), "");
}

#[test]
fn a_folded_digest_does_not_see_where_its_runs_end() {
    let mut whole = Fnv::new();
    whole.update(b"hello");
    assert_eq!(whole.value(), 0xa430d84680aabd0b);
    let mut parts = Fnv::new();
    parts.update(b"he");
    parts.step(b'l');
    parts.update(b"lo");
    assert_eq!(parts.value(), whole.value());
    assert_eq!(hex_text(whole.value()), "a430d84680aabd0b");
    assert_eq!(hex_text(0), "0000000000000000");
    assert!(hash_key(b"body").as_str().starts_with("hash:"));
    assert_ne!(hash_key(b"body"), hash_key(b"another"));
}

#[test]
fn numbers_read_back_from_their_digits() {
    let chars = |text: &str| -> Vec<char> { text.chars().collect() };
    assert_eq!(decimal(u64::MAX), "18446744073709551615");
    assert_eq!(parse_unsigned(&chars("042"), 100), Some(42));
    assert_eq!(parse_unsigned(&chars("101"), 100), None);
    assert_eq!(parse_unsigned(&chars(""), 100), None);
    assert_eq!(parse_signed(&chars("-17"), 100), Some(-17));
    let text = chars("  two\twords ");
    let found: Vec<String> = words(&text).iter().map(|word| word.iter().collect()).collect();
    assert_eq!(found, vec!["two", "words"]);
}

#[test]
fn a_day_names_one_date() {
    assert_eq!(days_from_civil(1970, 1, 1), 0);
    assert_eq!(days_from_civil(2000, 3, 1), 11_017);
    assert_eq!(civil_from_days(11_016), (2000, 2, 29));
    assert_eq!(civil_from_days(-1), (1969, 12, 31));
    for days in [-719_468, -1, 0, 59, 60, 365, 20_000, 1_000_000] {
        let (year, month, day) = civil_from_days(days);
        assert_eq!(days_from_civil(year, month, day), days);
    }
    assert_eq!(weekday(0), 4, "the epoch was a Thursday");
    assert_eq!(days_in_month(2024, 2), 29);
    assert_eq!(days_in_month(2100, 2), 28);
    assert_eq!(unix(1970, 1, 2, 0, 0, 1), 86_401);
    assert_eq!(rfc3339(86_401), "1970-01-02T00:00:01Z");
    assert_eq!(rfc3339(-1), "1969-12-31T23:59:59Z");
    assert_eq!(digits(b"x2026y", 1, 4), Some(2026));
    assert_eq!(digits(b"x2026y", 2, 4), None);
}

#[test]
fn lines_unfold_with_or_without_the_folding_space() {
    assert_eq!(unfold(b"a\r\n b\r\nc", false), vec!["ab", "c"]);
    assert_eq!(unfold(b"a\r\n b\r\nc", true), vec!["a b", "c"]);
    assert_eq!(unescape("a\\Nb"), "a\nb");
}

#[test]
fn an_action_error_is_told() {
    assert_eq!(
        PimdirActionError::Json.message(),
        "Pimdir action payload is not a JSON object"
    );
    for (payload, error) in [
        ("[]", PimdirActionError::Json),
        ("{\"seq\":1}", PimdirActionError::UnknownVersion(None)),
        ("{\"v\":1,\"seq\":\"x\"}", PimdirActionError::MissingField("seq")),
    ] {
        assert_eq!(action_from_payload("remove", payload), Err(error));
    }
    assert_eq!(
        action_from_payload("remove", "{\"seq\":3,\"v\":1,\"later\":true}"),
        Ok(PimdirAction::Remove { seq: 3 })
    );
}
