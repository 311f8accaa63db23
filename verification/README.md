# epub_server

A small server for a library of EPUB books. It looks through `./epubs`, converts
each book to section files below `./html`, and serves what was converted. A book
is converted again only when its file has changed.

There are two editions. The plain one writes HTML index pages and serves the
files as they are. The reader wraps each section in links to its neighbours,
lists books from a JSON index, and keeps the reader's place in each section.

## Layout

- `src/` is the library: all rules and formats, verified with Verus.
  - `text`, `path`, `util`, `json`: texts, slash-separated paths, escaping and
    numbers, JSON documents.
  - `extractor`: from the contents of a book to the files that are written.
  - `server`: from a request to its answer.
- `app/` is the program: files, network, and the documents that serde reads.
- `tests/` runs the library on concrete values.

What the library takes from `serde_json`, `sha2`, `hex`, `percent_encoding` and
the standard library stands in functions marked `external_body` and in
`assume_specification` items, each with the contract that is relied on.
