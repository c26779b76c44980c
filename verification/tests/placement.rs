use io_pimdir::placement::{PimdirFlags, PimdirHandle, PimdirLinkId};

fn flags(flags: &[&str]) -> PimdirFlags {
    PimdirFlags::from_iter(flags)
}

#[test]
fn ids_convert_from_owned_and_borrowed_strings() {
    assert_eq!(
        PimdirHandle::from(String::from("1")),
        PimdirHandle::from("1")
    );
    assert_eq!(PimdirHandle::from("1").as_str(), "1");
    assert_eq!(
        PimdirLinkId::from(String::from("m")),
        PimdirLinkId::from("m")
    );
    assert_eq!(PimdirLinkId::from("m").as_str(), "m");
}

#[test]
fn merge_keeps_unchanged_flags() {
    let base = flags(&["seen"]);
    let merged = PimdirFlags::merge(&base, &base, &base);
    assert_eq!(merged, base);
}

#[test]
fn merge_takes_each_side_addition() {
    let merged = PimdirFlags::merge(&flags(&[]), &flags(&["a"]), &flags(&["b"]));
    assert_eq!(merged, flags(&["a", "b"]));
}

#[test]
fn merge_takes_each_side_removal() {
    let base = flags(&["a", "b", "c"]);
    let merged = PimdirFlags::merge(&base, &flags(&["b", "c"]), &flags(&["a", "b"]));
    assert_eq!(merged, flags(&["b"]));
}

#[test]
fn merge_removal_beats_the_other_side_keeping() {
    let base = flags(&["seen"]);
    let merged = PimdirFlags::merge(&base, &flags(&[]), &base);
    assert_eq!(merged, flags(&[]));
}

#[test]
fn merge_agreeing_changes_converge() {
    let base = flags(&["old"]);
    let both = flags(&["new"]);
    let merged = PimdirFlags::merge(&base, &both, &both);
    assert_eq!(merged, both);
}

#[test]
fn an_unknown_side_takes_the_other_and_two_stay_unknown() {
    let base = flags(&["seen"]);
    let known = flags(&["flagged"]);
    let unknown = PimdirFlags::Unknown;
    assert_eq!(PimdirFlags::merge(&base, &unknown, &known), known);
    assert_eq!(PimdirFlags::merge(&base, &known, &unknown), known);
    assert_eq!(PimdirFlags::merge(&base, &unknown, &unknown), unknown);
}

#[test]
fn an_unknown_base_keeps_both_sides_markers() {
    let merged = PimdirFlags::merge(&PimdirFlags::Unknown, &flags(&["a"]), &flags(&["b"]));
    assert_eq!(merged, flags(&["a", "b"]));
}

#[test]
fn an_unknown_set_is_not_an_empty_one() {
    assert_ne!(PimdirFlags::Unknown, flags(&[]));
    assert!(PimdirFlags::Unknown.is_unknown());
    assert!(!PimdirFlags::Unknown.contains("seen"));
    assert_eq!(PimdirFlags::Unknown.known(), None);
    assert!(!PimdirFlags::default().is_unknown());
}
