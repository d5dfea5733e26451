//! Expansion of compact host name patterns such as `n[01-05,09]` into the
//! host names they stand for, and rendering of the names through a template.
//!
//! A pattern is read by [`expand_hostnames`], which expands each range it
//! meets as [`get_host_range`] does; [`expand_pattern`] renders the names.
//!
//! The contracts speak of texts as sequences of characters. The scan of a
//! pattern is defined in [`pattern`], a character at a time; [`items`] shows
//! that the items of a pattern may stand in any order, [`range`] what the
//! names of a range look like, and [`order`] that a list of names has one
//! sorted form only.

pub mod error;
pub mod items;
pub mod number;
pub mod order;
pub mod pattern;
pub mod range;
pub mod render;
pub mod text;

pub use crate::error::ExpandError;
pub use crate::number::pad_number;
pub use crate::pattern::expand_hostnames;
pub use crate::range::get_host_range;
pub use crate::render::expand_pattern;
