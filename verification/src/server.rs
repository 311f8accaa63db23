//! Answering requests for books, sections and reading positions.

pub mod api_server;
pub mod breadcrumbs;
pub mod content_type;
pub mod directory;
pub mod place_laws;
pub mod previous_path;
pub mod section_view;
pub mod serve;
