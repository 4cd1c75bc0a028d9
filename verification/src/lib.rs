//! Renders a matrix of text cells as a bordered, aligned grid of characters.
//!
//! A [`Grid`] holds its [`Cell`]s row by row. A cell has a text of one or
//! more lines, an alignment, border glyphs, padding, and a span: the number
//! of further columns to its right that it takes up. [`Grid::render`] lays
//! the grid out and draws it:
//!
//! - [`table`] leaves out the cells that a span covers;
//! - [`blocks`] groups the rows into runs of rows with the same spans;
//! - [`portion`] gives each cell of a block its share of the grid's width,
//!   as an exact fraction;
//! - [`layout`] searches for the grid width at which every row is as wide
//!   as every other;
//! - [`format`] draws one cell, [`render`] sets the drawn cells side by
//!   side and the rows below each other.
//!
//! [`laws`] states what holds of every rendering.

pub mod blocks;
pub mod cell;
pub mod format;
pub mod grid;
pub mod laws;
pub mod layout;
pub mod portion;
pub mod render;
pub mod sums;
pub mod table;
pub mod text;

pub use cell::{Alignment, Cell};
pub use format::CellFormatter;
pub use grid::Grid;
pub use render::LayoutError;
