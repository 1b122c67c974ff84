//! Parts of circuits that are used in many places.

pub mod select;
