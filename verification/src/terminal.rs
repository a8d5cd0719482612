//! The width of the terminal that a wide listing is laid out for.

use crate::error::ListingError;
use vstd::prelude::*;

verus! {

/// The width among the dimensions of a terminal, or the error that stands for
/// a terminal whose dimensions are not known.
pub open spec fn width_of(dimensions: Option<(usize, usize)>) -> Result<usize, ListingError> {
    match dimensions {
        Some((width, _)) => Ok(width),
        None => Err(ListingError::TerminalWidthUnavailable),
    }
}

/// Calls `term_size::dimensions`, which asks the terminal behind the standard
/// streams of the process for its width and height in characters. The answer
/// depends on that terminal, so nothing is claimed of it.
#[verifier::external_body]
fn terminal_dimensions() -> (dimensions: Option<(usize, usize)>) {
    term_size::dimensions()
}

/// The width among `dimensions`; `ListingError::TerminalWidthUnavailable`
/// where there are none.
pub fn width_from_dimensions(dimensions: Option<(usize, usize)>) -> (width: Result<
    usize,
    ListingError,
>)
    ensures
        width == width_of(dimensions),
{
    match dimensions {
        Some((width, _)) => Ok(width),
        None => Err(ListingError::TerminalWidthUnavailable),
    }
}

/// The width of the terminal of this process in characters, or
/// `ListingError::TerminalWidthUnavailable` where no terminal tells it.
pub fn get_term_width() -> (width: Result<usize, ListingError>)
    ensures
        exists|dimensions: Option<(usize, usize)>| width == width_of(dimensions),
{
    width_from_dimensions(terminal_dimensions())
}

} // verus!
