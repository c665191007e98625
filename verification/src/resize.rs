//! Translation of pixel-space resize notifications into grid-cell resize
//! commands.
//!
//! The pixel-to-cell arithmetic divides by fractional font metrics, which is
//! floating-point work done by the caller; this module holds the verified
//! decision of whether a notification produces a command at all.

use vstd::prelude::*;

verus! {

/// The outbound message telling the editor core that the window now spans a
/// new number of grid cells.
#[derive(Clone, Copy, Debug, PartialEq, Eq, Structural)]
pub struct ResizeCommand {
    pub width: u32,
    pub height: u32,
}

/// Decides whether a pixel resize notification yields a resize command.
///
/// A notification with a zero width or height is a spurious minimize or
/// zero-size event from the windowing backend and is dropped; any other
/// notification yields a command carrying the grid dimensions the caller
/// computed from the new pixel size and the font metrics.
pub fn resize_command(
    new_pixel_width: u32,
    new_pixel_height: u32,
    grid_width: u32,
    grid_height: u32,
) -> (r: Option<ResizeCommand>)
    ensures
        (new_pixel_width == 0 || new_pixel_height == 0) <==> r is None,
        new_pixel_width > 0 && new_pixel_height > 0 ==> r == Some(
            ResizeCommand { width: grid_width, height: grid_height },
        ),
{
    if new_pixel_width > 0 && new_pixel_height > 0 {
        Some(ResizeCommand { width: grid_width, height: grid_height })
    } else {
        None
    }
}

} // verus!
