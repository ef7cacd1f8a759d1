//! The models that the editor is built on.

pub mod pixel_canvas;
pub mod tool;
