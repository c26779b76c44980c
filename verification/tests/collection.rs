use io_pimdir::collection::PimdirCollectionId;

#[test]
fn id_converts_from_owned_and_borrowed_strings() {
    let owned = PimdirCollectionId::from(String::from("inbox"));
    let borrowed = PimdirCollectionId::from("inbox");
    assert_eq!(owned, borrowed);
    assert_eq!(owned.as_str(), "inbox");
}
