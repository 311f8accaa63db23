//! The logic of a small server for a library of EPUB books: converting a book
//! to section files, listing and serving what was converted, and keeping a
//! reader's place in each section.

pub mod edition;
pub mod extractor;
pub mod json;
pub mod path;
pub mod server;
pub mod text;
pub mod util;
