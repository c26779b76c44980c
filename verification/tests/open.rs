use io_pimdir::{
    collection::PimdirCheckpoint,
    coroutine::{
        PimdirArg, PimdirArgError, PimdirCoroutine, PimdirCoroutineState, PimdirYield,
    },
    load::PimdirLoaded,
    open::PimdirOpen,
    placement::{PimdirFlags, PimdirHandle, PimdirLevel, PimdirPlacement, PimdirStatus},
};

fn placement(handle: &str) -> PimdirPlacement {
    PimdirPlacement {
        sort_key: Default::default(),
        collection: "inbox".into(),
        handle: PimdirHandle::from(handle),
        link_id: None,
        object: None,
        level: PimdirLevel::Probed,
        summary: None,
        flags: PimdirFlags::default(),
        status: PimdirStatus::Clean,
        conflict_revision: None,
        conflict_object: None,
        base: None,
        origin: None,
    }
}

#[test]
fn start_yields_load() {
    let mut open = PimdirOpen::new("inbox".into());
    match open.resume(None) {
        PimdirCoroutineState::Yielded(PimdirYield::WantsLoad { collection, .. }) => {
            assert_eq!(collection.as_str(), "inbox");
        }
        state => panic!("expected WantsLoad, got {state:?}"),
    }
}

#[test]
fn load_completes_with_placements() {
    let mut open = PimdirOpen::new("inbox".into());
    let _ = open.resume(None);

    let loaded = PimdirLoaded {
        placements: vec![placement("1"), placement("2")],
        checkpoint: Some(PimdirCheckpoint(b"tok".to_vec())),
    };
    match open.resume(Some(PimdirArg::Load(loaded))) {
        PimdirCoroutineState::Complete(Ok(out)) => assert_eq!(out.placements.len(), 2),
        state => panic!("expected Complete(Ok), got {state:?}"),
    }
}

/// A caller resuming a finished coroutine is told, not handed a success.
#[test]
fn a_completed_open_does_not_resume() {
    let mut open = PimdirOpen::new("inbox".into());
    let _ = open.resume(None);
    let _ = open.resume(Some(PimdirArg::Load(PimdirLoaded {
        placements: vec![placement("1")],
        checkpoint: None,
    })));

    match open.resume(Some(PimdirArg::Write)) {
        PimdirCoroutineState::Complete(Err(PimdirArgError::UnexpectedArg)) => {}
        state => panic!("expected UnexpectedArg, got {state:?}"),
    }
    match open.resume(None) {
        PimdirCoroutineState::Complete(Err(PimdirArgError::UnexpectedArg)) => {}
        state => panic!("expected UnexpectedArg, got {state:?}"),
    }
}

#[test]
fn unexpected_arg_at_start_errors() {
    let mut open = PimdirOpen::new("inbox".into());
    match open.resume(Some(PimdirArg::Write)) {
        PimdirCoroutineState::Complete(Err(PimdirArgError::UnexpectedArg)) => {}
        state => panic!("expected UnexpectedArg, got {state:?}"),
    }
}

#[test]
fn missing_arg_at_pending_load_errors() {
    let mut open = PimdirOpen::new("inbox".into());
    let _ = open.resume(None);
    match open.resume(None) {
        PimdirCoroutineState::Complete(Err(PimdirArgError::MissingArg)) => {}
        state => panic!("expected MissingArg, got {state:?}"),
    }
}

#[test]
fn wrong_arg_kind_at_pending_load_errors() {
    let mut open = PimdirOpen::new("inbox".into());
    let _ = open.resume(None);
    match open.resume(Some(PimdirArg::Write)) {
        PimdirCoroutineState::Complete(Err(PimdirArgError::UnexpectedArg)) => {}
        state => panic!("expected UnexpectedArg, got {state:?}"),
    }
}
