use vstd::prelude::*;

use crate::engine::round::Idx as BoardIdx;
use crate::tui::error::TuiError;

verus! {

/// What went wrong in the game's interface.
#[derive(Debug)]
pub enum Error {
    TuiError { source: TuiError },
    UnableToRetrieveSlot { context: String },
    CannotConvertToStatic,
    CannotConvertToSliding { idx: Option<BoardIdx> },
    TerminalTooSmall(usize, usize),
}

impl From<TuiError> for Error {
    fn from(source: TuiError) -> (r: Error) {
        Error::TuiError { source }
    }
}

impl vstd::std_specs::convert::FromSpecImpl<TuiError> for Error {
    open spec fn obeys_from_spec() -> bool {
        true
    }

    open spec fn from_spec(source: TuiError) -> Error {
        Error::TuiError { source }
    }
}

} // verus!
