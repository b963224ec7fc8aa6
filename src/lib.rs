//! Parser combinators over text with verified contracts, and a parser of durations
//! such as `500ms` built from them.

pub mod duration;
pub mod parsers;
