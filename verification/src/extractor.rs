//! Turning EPUB books into the files that the server hands out.

pub mod clean;
pub mod conversion;
pub mod fingerprint;
pub mod index_json;
pub mod index_page;
pub mod links;
pub mod output;
pub mod read_position;
pub mod resources;
pub mod scan;
pub mod script;
pub mod sections;
pub mod title;
