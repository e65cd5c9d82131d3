use vstd::prelude::*;

verus! {

/// The failures a render request can report.
#[derive(Clone, Copy, Debug, PartialEq, Eq, Structural)]
pub enum RenderError {
    /// The requested raster has a width or a height of zero, or a size that
    /// does not go with the data or the file format it is asked for.
    InvalidDimensions,
}

/// Accepts a raster size exactly when both sides are positive.
pub fn check_dimensions(width: usize, height: usize) -> (r: Result<(), RenderError>)
    ensures
        r.is_ok() <==> width > 0 && height > 0,
        r.is_err() ==> r == Err::<(), RenderError>(RenderError::InvalidDimensions),
{
    if width == 0 || height == 0 {
        Err(RenderError::InvalidDimensions)
    } else {
        Ok(())
    }
}

} // verus!
