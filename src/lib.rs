//! Style resolution, block layout and painting for a small document renderer.
//!
//! Lengths are whole pixels held in `i64`; every sum saturates at the bounds of
//! `i64` instead of wrapping.
pub mod css;
pub mod dom;
pub mod style;
pub mod layout;
pub mod painting;
