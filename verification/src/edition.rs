//! The two editions of the site.

use vstd::prelude::*;

verus! {

/// How a book is published: as plain HTML pages, or for the reader, which wraps
/// the sections, lists books from a JSON index and keeps the reader's place.
#[derive(Clone, Copy, PartialEq, Eq, Structural)]
pub enum Edition {
    Plain,
    Reader,
}

/// Where the books are looked for.
pub const EPUBS_DIR: &'static str = "./epubs";

/// Where the converted books are put.
pub const HTML_DIR: &'static str = "./html";

/// Where the server keeps what it has to remember.
pub const DATA_DIR: &'static str = "./data";

/// How many seconds pass between two looks at the books.
pub const POLL_INTERVAL_SECS: u64 = 60;

/// The file that marks a directory as a book.
pub open spec fn index_file(edition: Edition) -> Seq<char> {
    match edition {
        Edition::Plain => "index.html"@,
        Edition::Reader => "index.json"@,
    }
}

impl Edition {
    /// The file that marks a directory as a book.
    pub fn index_name(self) -> (name: &'static str)
        ensures
            name@ == index_file(self),
    {
        match self {
            Edition::Plain => "index.html",
            Edition::Reader => "index.json",
        }
    }
}

} // verus!
