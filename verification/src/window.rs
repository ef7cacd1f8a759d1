//! The windows of the editor, as far as they are plain values.

pub mod color_selector;
