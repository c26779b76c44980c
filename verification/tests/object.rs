use io_pimdir::object::PimdirHash;

#[test]
fn hash_converts_from_owned_and_borrowed_strings() {
    let owned = PimdirHash::from(String::from("abc"));
    let borrowed = PimdirHash::from("abc");
    assert_eq!(owned, borrowed);
    assert_eq!(owned.as_str(), "abc");
}
