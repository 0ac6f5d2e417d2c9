//! Review-writing terminal UI logic: the layout of input widgets, the
//! keyboard navigation between them, the grid of reviews, and the final
//! textual report.

pub mod geometry;
pub mod keys;
pub mod style;
pub mod textbox;
pub mod text;
pub mod review;
pub mod ui;
pub mod tree;
pub mod builder;
pub mod config;
pub mod report;
