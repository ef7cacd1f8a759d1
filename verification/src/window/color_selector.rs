//! The window that holds the color selector.

use vstd::prelude::*;

verus! {

/// The window around the color selector: it keeps the selector a fixed
/// margin away from its own border, and stays open until it is
/// terminated.
#[derive(Debug, Clone, Copy, PartialEq, Eq, Structural)]
pub struct ColorSelectorWindow {
    margin: u32,
    terminated: bool,
}

/// The margin of the window, in screen pixels.
pub const COLOR_SELECTOR_MARGIN: u32 = 8;

impl ColorSelectorWindow {
    /// The margin between the border of the window and the selector.
    pub closed spec fn spec_margin(&self) -> u32 {
        self.margin
    }

    /// Whether the window has been closed.
    pub closed spec fn spec_is_terminated(&self) -> bool {
        self.terminated
    }

    /// An open window with the margin of the color selector.
    pub fn new() -> (window: ColorSelectorWindow)
        ensures
            window.spec_margin() == COLOR_SELECTOR_MARGIN,
            !window.spec_is_terminated(),
    {
        ColorSelectorWindow { margin: COLOR_SELECTOR_MARGIN, terminated: false }
    }

    pub fn margin(&self) -> (margin: u32)
        ensures
            margin == self.spec_margin(),
    {
        self.margin
    }

    pub fn is_terminated(&self) -> (terminated: bool)
        ensures
            terminated == self.spec_is_terminated(),
    {
        self.terminated
    }

    /// Closes the window.
    pub fn terminate(&mut self)
        ensures
            final(self).spec_is_terminated(),
            final(self).spec_margin() == old(self).spec_margin(),
    {
        self.terminated = true;
    }
}

} // verus!
