//! The output width.

use vstd::prelude::*;

verus! {

/// The width used when the terminal's cannot be found.
pub const DEFAULT_WIDTH: usize = 80;

/// The terminal width from the outcome of the `TIOCGWINSZ` request: its
/// column count when the request succeeded (returned 0) and the count is
/// positive, `None` otherwise.
pub fn width_from_winsize(ret: i32, cols: u16) -> (r: Option<usize>)
    ensures
        r == (if ret == 0 && cols > 0 { Some(cols as usize) } else { None::<usize> }),
{
    if ret == 0 && cols > 0 {
        Some(cols as usize)
    } else {
        None
    }
}

/// The width to draw lines with: none for wide output, otherwise the
/// terminal's width, or 80 columns when it is unknown.
pub fn output_width(wide: bool, terminal: Option<usize>) -> (r: Option<usize>)
    ensures
        r == (if wide {
            None::<usize>
        } else {
            match terminal {
                Some(w) => Some(w),
                None => Some(DEFAULT_WIDTH),
            }
        }),
{
    if wide {
        None
    } else {
        match terminal {
            Some(w) => Some(w),
            None => Some(DEFAULT_WIDTH),
        }
    }
}

} // verus!
