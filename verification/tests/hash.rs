use io_pimdir::hash::{base32, PimdirHashAlgo};

#[test]
fn sha256_128_matches_the_shape_every_implementation_must_agree_on() {
    let hash = PimdirHashAlgo::Sha256_128.hash(b"pimdir");
    assert_eq!(hash.0.len(), 26);
    assert!(hash.0.chars().all(|c| ALPHABET_CHARS.contains(c)));
}

const ALPHABET_CHARS: &str = "abcdefghijklmnopqrstuvwxyz234567";

#[test]
fn base32_encodes_rfc_4648_vectors_lowercased() {
    assert_eq!(base32(b"f"), "my");
    assert_eq!(base32(b"fo"), "mzxq");
    assert_eq!(base32(b"foo"), "mzxw6");
    assert_eq!(base32(b"foob"), "mzxw6yq");
    assert_eq!(base32(b"fooba"), "mzxw6ytb");
    assert_eq!(base32(b"foobar"), "mzxw6ytboi");
}

#[test]
fn a_streamed_body_hashes_like_a_whole_one() {
    for algo in [PimdirHashAlgo::Blake3, PimdirHashAlgo::Sha256_128] {
        let mut hasher = algo.hasher();
        hasher.update(b"BEGIN:VCARD\r\n");
        hasher.update(b"UID:x\r\nEND:VCARD\r\n");
        assert_eq!(
            hasher.finish(),
            algo.hash(b"BEGIN:VCARD\r\nUID:x\r\nEND:VCARD\r\n")
        );
    }
}

#[test]
fn the_algorithms_round_trip_through_their_stored_spelling() {
    for algo in [PimdirHashAlgo::Blake3, PimdirHashAlgo::Sha256_128] {
        assert_eq!(PimdirHashAlgo::parse(algo.as_str()), Some(algo));
    }
    assert_eq!(PimdirHashAlgo::parse("md5"), None);
    assert_eq!(PimdirHashAlgo::default(), PimdirHashAlgo::Blake3);
}
