//! The core of a terminal outline editor.
//!
//! - `tree`: the document, a tree of bullets in a table keyed by identity,
//!   with its model, its traversals and its laws.
//! - `raster`: the grid of the screen, and the cursor that moves over it.
//! - `render`: drawing the document on a window and on the grid.
//! - `handlers`, `editor`, `status`: the commands of the two modes, the
//!   editing session that dispatches them, and the status line.
//! - `tree_new`: a lighter outline whose bullets name their sibling.

pub mod editor;
pub mod error;
pub mod handlers;
pub mod raster;
pub mod render;
pub mod status;
pub mod text;
pub mod tree;
pub mod tree_new;
