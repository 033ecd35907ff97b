use vstd::prelude::*;

use crate::tui::geometry::{Direction, Rectangle};

verus! {

/// What went wrong in the text user interface.
#[derive(Clone, Debug, PartialEq, Eq)]
pub enum InnerError {
    CellAlreadyOwned,
    TranslationImpossible(Direction),
    OutOfBoundsX(usize),
    OutOfBoundsY(usize),
    OutOfBoundsZ(usize),
    InvalidVectorTranslation { mag: usize, dir: Direction, rect: Rectangle },
    TopTuxelNotFound,
    DrawBufferTranslationFailed(String),
    ExceedRetryLimitForLockingDrawBuffer(String),
    RectangleDimensionsMustMatch,
}

/// The error type of the text user interface.
#[derive(Clone, Debug, PartialEq, Eq)]
pub struct TuiError {
    pub inner: InnerError,
}

impl From<InnerError> for TuiError {
    fn from(inner: InnerError) -> (r: TuiError) {
        TuiError { inner }
    }
}

impl vstd::std_specs::convert::FromSpecImpl<InnerError> for TuiError {
    open spec fn obeys_from_spec() -> bool {
        true
    }

    open spec fn from_spec(inner: InnerError) -> TuiError {
        TuiError { inner }
    }
}

} // verus!
