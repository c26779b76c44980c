use io_pimdir::coroutine::PimdirArgError;

/// The two contract breaks read apart, so a consumer log tells them.
#[test]
fn the_two_contract_breaks_read_apart() {
    assert_eq!(
        PimdirArgError::UnexpectedArg.message(),
        "Pimdir coroutine failed: unexpected arg",
    );
    assert_eq!(
        PimdirArgError::MissingArg.message(),
        "Pimdir coroutine failed: missing arg",
    );
}
