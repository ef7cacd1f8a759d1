//! The grid lines that the editor lays over the canvas.

use vstd::prelude::*;

verus! {

/// How strong a grid line is.
#[derive(Debug, Clone, Copy, PartialEq, Eq, Structural)]
pub enum GridLine {
    /// Every line.
    One,
    /// Every eighth line.
    Eight,
    /// Every thirty-second line.
    ThirtyTwo,
}

/// The strength of the grid line `i`: the strongest for a multiple of 32,
/// the middle one for another multiple of 8, the weakest for the rest.
pub fn line_kind(i: i16) -> (kind: GridLine)
    ensures
        kind == if i as int % 32 == 0 {
            GridLine::ThirtyTwo
        } else if i as int % 8 == 0 {
            GridLine::Eight
        } else {
            GridLine::One
        },
{
    if i % 32 == 0 {
        GridLine::ThirtyTwo
    } else if i % 8 == 0 {
        GridLine::Eight
    } else {
        GridLine::One
    }
}

/// Whether the grid line `i` is left out at the zoom `zoom`: at zoom 1
/// only the multiples of 32 are drawn, at zoom 2 only the multiples of 8,
/// beyond that every line.
pub fn skip_line(i: i16, zoom: u8) -> (skip: bool)
    ensures
        skip == ((zoom == 1 && i as int % 32 != 0) || (zoom == 2 && i as int % 8 != 0)),
{
    if zoom == 1 && i % 32 != 0 {
        true
    } else if zoom == 2 && i % 8 != 0 {
        true
    } else {
        false
    }
}

} // verus!
