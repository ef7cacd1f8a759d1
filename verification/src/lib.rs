//! Storage and history engine of a pixel-art canvas: a sparse pixel store,
//! an undoable command log, layer compositing and the persisted binary form.

pub mod codec;
pub mod color;
pub mod compositor;
pub mod deflate;
pub mod edit;
pub mod error;
pub mod gesture;
pub mod grid;
pub mod history;
pub mod model;
pub mod pixel;
pub mod sorting;
pub mod store;
pub mod window;
