//! Places: the memory locations that the analysis speaks about, and helpers
//! for lists of values that are compared by what they stand for.

pub mod items;
pub mod place;
pub mod walks;
