//! # Open
//!
//! I/O-free coroutine opening a collection fully offline: one storage
//! read of the placements and checkpoint, handed straight back.

use crate::collection::PimdirCollectionId;
use crate::coroutine::{
    misfit, misfit_of, ArgView, PimdirArg, PimdirArgError, PimdirCoroutine, PimdirCoroutineState,
    PimdirYield, YieldView,
};
use crate::load::{LoadScopeView, LoadedView, PimdirLoadScope, PimdirLoaded};
use crate::text::Text;
use vstd::prelude::*;

verus! {

/// What the coroutine is doing while it waits for the caller.
#[derive(Clone, Copy, Debug, PartialEq, Eq, Structural)]
pub enum OpenPhase {
    /// Nothing asked for yet.
    Start,
    /// The load was asked for.
    Loading,
    /// Finished.
    Done,
}

/// I/O-free OPEN coroutine.
pub struct PimdirOpen {
    collection: PimdirCollectionId,
    state: OpenPhase,
}

/// What an open is doing, and to which collection.
#[verifier::ext_equal]
pub struct OpenView {
    pub collection: Text,
    pub phase: OpenPhase,
}

impl View for PimdirOpen {
    type V = OpenView;

    closed spec fn view(&self) -> OpenView {
        OpenView { collection: self.collection@, phase: self.state }
    }
}

/// What one step of an open answers.
#[verifier::ext_equal]
pub enum OpenStep {
    /// A request of the caller.
    Wants(YieldView),
    /// The collection, or the caller's mistake.
    Ends(Result<LoadedView, PimdirArgError>),
}

/// One step of an open: the whole collection is asked for once and handed
/// back as it was loaded; anything else is the caller's mistake and moves
/// nothing.
pub open spec fn open_step(open: OpenView, arg: Option<ArgView>) -> (OpenView, OpenStep) {
    match (open.phase, arg) {
        (OpenPhase::Start, None) => (
            OpenView { phase: OpenPhase::Loading, ..open },
            OpenStep::Wants(
                YieldView::WantsLoad { collection: open.collection, scope: LoadScopeView::All },
            ),
        ),
        (OpenPhase::Loading, Some(ArgView::Load(loaded))) => (
            OpenView { phase: OpenPhase::Done, ..open },
            OpenStep::Ends(Ok(loaded)),
        ),
        _ => (open, OpenStep::Ends(Err(misfit(open.phase == OpenPhase::Done, arg)))),
    }
}

/// What a step answered.
pub open spec fn open_answer(
    state: PimdirCoroutineState<PimdirYield, Result<PimdirLoaded, PimdirArgError>>,
) -> OpenStep {
    match state {
        PimdirCoroutineState::Yielded(wants) => OpenStep::Wants(wants@),
        PimdirCoroutineState::Complete(Ok(loaded)) => OpenStep::Ends(Ok(loaded@)),
        PimdirCoroutineState::Complete(Err(error)) => OpenStep::Ends(Err(error)),
    }
}

impl PimdirOpen {
    /// Creates a coroutine that loads `collection` from storage.
    pub fn new(collection: PimdirCollectionId) -> (open: Self)
        ensures
            open@ == (OpenView { collection: collection@, phase: OpenPhase::Start }),
    {
        PimdirOpen { collection, state: OpenPhase::Start }
    }
}

impl PimdirCoroutine for PimdirOpen {
    type Yield = PimdirYield;

    type Return = Result<PimdirLoaded, PimdirArgError>;

    fn resume(&mut self, arg: Option<PimdirArg>) -> (state: PimdirCoroutineState<
        PimdirYield,
        Result<PimdirLoaded, PimdirArgError>,
    >)
        ensures
            (final(self)@, open_answer(state)) == open_step(old(self)@, arg.deep_view()),
    {
        match (self.state, arg) {
            (OpenPhase::Start, None) => {
                self.state = OpenPhase::Loading;
                PimdirCoroutineState::Yielded(
                    PimdirYield::WantsLoad {
                        collection: self.collection.clone(),
                        scope: PimdirLoadScope::All,
                    },
                )
            },
            (OpenPhase::Loading, Some(PimdirArg::Load(loaded))) => {
                self.state = OpenPhase::Done;
                PimdirCoroutineState::Complete(Ok(loaded))
            },
            (state, arg) => PimdirCoroutineState::Complete(
                Err(misfit_of(state == OpenPhase::Done, &arg)),
            ),
        }
    }
}

/// A finished open takes no further step: every resume is told so.
pub proof fn lemma_finished_open_does_not_resume(open: OpenView, arg: Option<ArgView>)
    requires
        open.phase == OpenPhase::Done,
    ensures
        open_step(open, arg) == (open, OpenStep::Ends(Err(PimdirArgError::UnexpectedArg))),
{
}

} // verus!
