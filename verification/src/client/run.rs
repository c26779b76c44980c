//! # The runner
//!
//! Runs a verb to completion: the storage yields are serviced by the store,
//! the remote ones by the consumer's remote.

use crate::client::PimdirError;
use crate::coroutine::{PimdirYield, YieldView};
use vstd::prelude::*;
use vstd::string::*;

verus! {

/// Why a run stopped short of its report.
#[derive(Debug)]
pub enum PimdirRunError<R, C> {
    /// The store refused a load or a write.
    Store(PimdirError),
    /// The remote seam failed.
    Remote(R),
    /// The coroutine itself completed with an error.
    Coroutine(C),
}

impl<R, C> From<PimdirError> for PimdirRunError<R, C> {
    fn from(error: PimdirError) -> (made: Self) {
        PimdirRunError::Store(error)
    }
}

impl<R, C> vstd::std_specs::convert::FromSpecImpl<PimdirError> for PimdirRunError<R, C> {
    open spec fn obeys_from_spec() -> bool {
        true
    }

    open spec fn from_spec(error: PimdirError) -> Self {
        PimdirRunError::Store(error)
    }
}

impl<R, C> PimdirRunError<R, C> {
    /// The message of the error, `cause` being what the remote or the
    /// coroutine said of its own failure.
    pub fn message(&self, cause: &str) -> (text: String)
        ensures
            text@ == match *self {
                PimdirRunError::Store(error) => "Pimdir store failed: "@ + error@.message(),
                PimdirRunError::Remote(_) => "Pimdir remote failed: "@ + cause@,
                PimdirRunError::Coroutine(_) => "Pimdir engine failed: "@ + cause@,
            },
    {
        match self {
            PimdirRunError::Store(error) => {
                let mut text = "Pimdir store failed: ".to_owned();
                text.append(error.message().as_str());
                text
            },
            PimdirRunError::Remote(_) => {
                let mut text = "Pimdir remote failed: ".to_owned();
                text.append(cause);
                text
            },
            PimdirRunError::Coroutine(_) => {
                let mut text = "Pimdir engine failed: ".to_owned();
                text.append(cause);
                text
            },
        }
    }
}

/// Whether a yield is the remote's to answer.
pub open spec fn is_remote(yielded: YieldView) -> bool {
    yielded is WantsEnumerate || yielded is WantsFetch || yielded is WantsPush
}

/// Tells whose a yield is: `Ok` for one the store services, `Err` for one
/// it hands back untouched for the remote.
pub fn split_yield(yielded: PimdirYield) -> (whose: Result<PimdirYield, PimdirYield>)
    ensures
        match whose {
            Ok(mine) => mine == yielded && !is_remote(yielded@),
            Err(remote) => remote == yielded && is_remote(yielded@),
        },
{
    match yielded {
        PimdirYield::WantsLoad { .. }
        | PimdirYield::WantsLookupObject(_)
        | PimdirYield::WantsWrite(_) => Ok(yielded),
        _ => Err(yielded),
    }
}

} // verus!
