//! Matches a catalog of canonical products against free-text product
//! listings, attaching each listing to at most one product by keyword
//! overlap, and reads and writes the line-delimited record format the
//! two collections are stored in.

pub mod error;
pub mod index;
pub mod json;
pub mod keywords;
pub mod loader;
pub mod records;
pub mod resolve;
pub mod seqset;
pub mod text;
