use epub_server::edition::Edition;
use epub_server::extractor::clean::{clean_action, CleanAction};
use epub_server::extractor::conversion::{first_book_step, next_book_step, BookStep};
use epub_server::extractor::fingerprint::{hash_contents, needs_conversion};
use epub_server::extractor::output::{
    hash_file_path, index_of_book, info_file_path, page_files,
};
use epub_server::extractor::resources::{is_extracted_type, plan_resources};
use epub_server::extractor::scan::{
    book_of_epub_entry, book_of_html_entry, plan_extraction, walk_step, DirHelper, HtmlEntry, Plan,
    WalkStep,
};
use epub_server::extractor::script::SCROLL_SCRIPT;
use epub_server::extractor::sections::{
    convert_sections, lacks_toc_titles, name_section, name_section_file, Book, Conversion, Resource,
    SpineItem, TocEntry,
};

fn resource(id: &str, path: &str, mime: &str) -> Resource {
    Resource { id: id.to_string(), path: path.to_string(), mime: mime.to_string() }
}

fn toc(content: &str, label: &str) -> TocEntry {
    TocEntry { content: content.to_string(), label: label.to_string() }
}

fn page(idref: &str, text: &str, mime: &str) -> SpineItem {
    SpineItem { idref: idref.to_string(), page: Some((text.to_string(), mime.to_string())) }
}

fn dune() -> Book {
    Book {
        root_base: "OEBPS".to_string(),
        toc: vec![
            toc("OEBPS/text/one.xhtml#start", "  Old \n"),
            toc("OEBPS/text/./one.xhtml", " Chapter the First "),
            toc("OEBPS/elsewhere.xhtml", "Elsewhere"),
        ],
        resources: vec![
            resource("one", "OEBPS/text/one.xhtml", "application/xhtml+xml"),
            resource("two", "OEBPS/text/two.xhtml", "application/xhtml+xml"),
            resource("three", "OEBPS/text/three.xhtml", "application/xhtml+xml"),
            resource("pic", "OEBPS/images/pic.png", "image/png"),
            resource("gone", "OEBPS/text/gone.xhtml", "application/xhtml+xml"),
        ],
        spine: vec![
            page("one", "<title>Page one</title><img src=\"../images/pic.png\"></body>", "text/html"),
            page("pic", "PNG", "image/png"),
            page("nobody", "<p>", "text/html"),
            SpineItem { idref: "gone".to_string(), page: None },
            page("two", "<title> Page two </title>", "application/xhtml+xml"),
            page("three", "<p>no title</p>", "application/xhtml+xml"),
        ],
    }
}

fn converted(book: &Book, edition: Edition) -> Conversion {
    convert_sections(book, edition)
}

#[test]
fn sections_of_a_book() {
    let c = converted(&dune(), Edition::Plain);
    let seen: Vec<(&str, &str, &str)> = c
        .sections
        .iter()
        .map(|s| (s.title.as_str(), s.name.as_str(), s.page.as_str()))
        .collect();
    assert_eq!(
        seen,
        vec![
            (
                "Chapter the First",
                "section_001",
                "<title>Page one</title><img src=\"images/pic.png\"></body>"
            ),
            ("Page two", "section_005", "<title> Page two </title>"),
            ("Chapter 6", "section_006", "<p>no title</p>"),
        ]
    );
    assert_eq!(c.toc_hits, 1);
    assert!(c.info.read_position.is_empty());
    assert!(!lacks_toc_titles(&c));
}

#[test]
fn the_reader_edition_adds_the_script_and_a_place_for_each_section() {
    let c = converted(&dune(), Edition::Reader);
    assert_eq!(
        c.sections[0].page,
        format!("<title>Page one</title><img src=\"images/pic.png\">\n{SCROLL_SCRIPT}\n</body>")
    );
    let names: Vec<&str> = c.sections.iter().map(|s| s.name.as_str()).collect();
    assert_eq!(names, vec!["section_001", "section_005", "section_006"]);
    assert_eq!(c.info.read_position.len(), 3);
    for name in names {
        let place = c.info.get(name).unwrap();
        assert_eq!(place.file_name, name);
        assert!(place.node_path.is_empty());
        assert_eq!(place.offset, 0);
    }
    assert!(c.info.get("section_002").is_none());
}

#[test]
fn a_book_without_labels_is_noticed() {
    let mut book = dune();
    book.toc = vec![toc("text/one.xhtml", "Wrong path")];
    assert!(lacks_toc_titles(&converted(&book, Edition::Plain)));
    book.spine = Vec::new();
    assert!(!lacks_toc_titles(&converted(&book, Edition::Plain)));
}

#[test]
fn the_title_comes_from_the_label_then_the_page_then_the_number() {
    let mut book = dune();
    book.spine = vec![
        page("one", "\u{130}<title>\u{e9}</title>", "text/html"),
        page("two", "\u{130}<title>\u{e9}</title>", "text/html"),
        page("three", "\u{130}<title> </title>", "text/html"),
    ];
    let c = converted(&book, Edition::Plain);
    let titles: Vec<&str> = c.sections.iter().map(|s| s.title.as_str()).collect();
    assert_eq!(titles, vec!["Chapter the First", "\u{e9}", "Chapter 3"]);
}

#[test]
fn names_of_sections() {
    assert_eq!(name_section(0), "section_001");
    assert_eq!(name_section(11), "section_012");
    assert_eq!(name_section(998), "section_999");
    assert_eq!(name_section(999), "section_1000");
    assert_eq!(name_section_file("section_012"), "section_012.html");
}

#[test]
fn no_two_sections_share_a_name() {
    let mut names: Vec<String> = (0..1200usize).map(name_section).collect();
    names.sort();
    names.dedup();
    assert_eq!(names.len(), 1200);
}

#[test]
fn files_of_a_converted_book() {
    let c = converted(&dune(), Edition::Plain);
    let files = page_files(&c, "./html/sci-fi/dune");
    let paths: Vec<&str> = files.iter().map(|f| f.path.as_str()).collect();
    assert_eq!(
        paths,
        vec![
            "./html/sci-fi/dune/section_001.html",
            "./html/sci-fi/dune/section_005.html",
            "./html/sci-fi/dune/section_006.html"
        ]
    );
    assert_eq!(files[2].text, "<p>no title</p>");
    assert_eq!(info_file_path("./html/dune"), "./html/dune/.info.json");
    assert_eq!(hash_file_path("./html/dune"), "./html/dune/.hash");
}

#[test]
fn the_index_lists_the_pages() {
    let plain = index_of_book(&converted(&dune(), Edition::Plain), "./html/sci-fi/dune", Edition::Plain);
    assert_eq!(plain.path, "./html/sci-fi/dune/index.html");
    assert!(plain.text.contains("<title>dune</title>"));
    assert!(plain.text.contains("<li><a href=\"section_005.html\">Page two</a></li>"));
    let reader = index_of_book(&converted(&dune(), Edition::Reader), "./html/sci-fi/dune", Edition::Reader);
    assert_eq!(reader.path, "./html/sci-fi/dune/index.json");
    let value: serde_json::Value = serde_json::from_str(&reader.text).unwrap();
    assert_eq!(value["book_name"].as_str(), Some("dune"));
    assert_eq!(value["sections"][2]["filename"].as_str(), Some("section_006.html"));
    assert_eq!(value["sections"][2]["title"].as_str(), Some("Chapter 6"));
    assert!(value["sections"][3].is_null());
}

#[test]
fn media_types_of_extracted_files() {
    for mime in [
        "image/png",
        "image/",
        "text/css",
        "font/woff2",
        "application/vnd.ms-opentype",
        "application/vnd.ms-fontobject",
        "application/font-woff",
        "application/font-sfnt",
        "application/x-font-ttf",
    ] {
        assert!(is_extracted_type(mime), "{mime}");
    }
    for mime in ["text/html", "text/css2", "application/pdf", "Image/png", ""] {
        assert!(!is_extracted_type(mime), "{mime}");
    }
}

#[test]
fn places_of_extracted_files() {
    let list = vec![
        resource("a", "OEBPS/images/foo.jpg", "image/jpeg"),
        resource("b", "OEBPS/ch.xhtml", "application/xhtml+xml"),
        resource("c", "cover.png", "image/png"),
        resource("d", "OEBPS/style.css", "text/css"),
        resource("e", "OEBPS/fonts/a.woff", "application/font-woff"),
    ];
    let jobs = plan_resources(&list, "OEBPS", "./html/dune");
    let seen: Vec<(&str, &str, Option<&str>)> =
        jobs.iter().map(|j| (j.id.as_str(), j.dest.as_str(), j.parent.as_deref())).collect();
    assert_eq!(
        seen,
        vec![
            ("a", "./html/dune/images/foo.jpg", Some("./html/dune/images")),
            ("c", "./html/dune/cover.png", Some("./html/dune")),
            ("d", "./html/dune/style.css", Some("./html/dune")),
            ("e", "./html/dune/fonts/a.woff", Some("./html/dune/fonts")),
        ]
    );
}

#[test]
fn the_structure_below_the_root_is_kept() {
    let list = vec![resource("a", "a/b/c/d.png", "image/png")];
    let dest = |base: &str| plan_resources(&list, base, "out")[0].dest.clone();
    assert_eq!(dest(""), "out/a/b/c/d.png");
    assert_eq!(dest("a"), "out/b/c/d.png");
    assert_eq!(dest("a/b/"), "out/c/d.png");
    assert_eq!(dest("b"), "out/a/b/c/d.png");
}

#[test]
fn a_rewritten_reference_meets_its_file() {
    let c = converted(&dune(), Edition::Plain);
    let jobs = plan_resources(&dune().resources, "OEBPS", "./html/dune");
    assert_eq!(jobs.len(), 1);
    assert_eq!(jobs[0].dest, "./html/dune/images/pic.png");
    assert!(c.sections[0].page.contains("src=\"images/pic.png\""));
}

#[test]
fn fingerprints() {
    assert_eq!(
        hash_contents(b""),
        "e3b0c44298fc1c149afbf4c8996fb92427ae41e4649b934ca495991b7852b855"
    );
    assert_eq!(
        hash_contents(b"abc"),
        "ba7816bf8f01cfea414140de5dae2223b00361a396177a9cb410ff61f20015ad"
    );
}

#[test]
fn an_unchanged_book_is_left() {
    let hash = hash_contents(b"book");
    assert!(needs_conversion(&hash, None));
    assert!(needs_conversion(&hash, Some("")));
    assert!(needs_conversion(&hash, Some(&hash_contents(b"old book"))));
    assert!(!needs_conversion(&hash, Some(&hash)));
    assert!(!needs_conversion(&hash, Some(&format!(" {hash}\n"))));
}

#[test]
fn the_order_of_a_conversion() {
    let hash = hash_contents(b"book");
    assert!(first_book_step(&hash, Some(&hash)) == BookStep::Done);
    let mut step = first_book_step(&hash, None);
    assert!(step == BookStep::MakeDirectory);
    for expected in [BookStep::Clean, BookStep::Convert, BookStep::StoreFingerprint, BookStep::Done] {
        step = next_book_step(step, true);
        assert!(step == expected);
    }
    assert!(next_book_step(BookStep::MakeDirectory, false) == BookStep::Failed);
    assert!(next_book_step(BookStep::Clean, false) == BookStep::Convert);
    assert!(next_book_step(BookStep::Convert, false) == BookStep::Failed);
    assert!(next_book_step(BookStep::StoreFingerprint, false) == BookStep::Failed);
    assert!(next_book_step(BookStep::Failed, true) == BookStep::Failed);
    assert!(next_book_step(BookStep::Done, false) == BookStep::Done);
}

#[test]
fn what_is_cleared_before_a_conversion() {
    let reader = Edition::Reader;
    let plain = Edition::Plain;
    assert!(clean_action(Some(".hash"), false, plain) == CleanAction::Keep);
    assert!(clean_action(Some(".info.json"), false, reader) == CleanAction::Keep);
    assert!(clean_action(Some(".dir"), true, reader) == CleanAction::Keep);
    assert!(clean_action(Some("images"), true, plain) == CleanAction::RemoveDirectory);
    assert!(clean_action(Some("section_x"), true, plain) == CleanAction::RemoveDirectory);
    assert!(clean_action(Some("index.html"), false, plain) == CleanAction::RemoveFile);
    assert!(clean_action(Some("index.html"), false, reader) == CleanAction::RemoveFile);
    assert!(clean_action(Some("index.json"), false, reader) == CleanAction::RemoveFile);
    assert!(clean_action(Some("index.json"), false, plain) == CleanAction::Keep);
    assert!(clean_action(Some("section_001.html"), false, plain) == CleanAction::RemoveFile);
    assert!(clean_action(Some("section_.html"), false, reader) == CleanAction::RemoveFile);
    assert!(clean_action(Some("section_001.htm"), false, reader) == CleanAction::Keep);
    assert!(clean_action(Some("cover.png"), false, reader) == CleanAction::Keep);
    assert!(clean_action(None, true, reader) == CleanAction::Keep);
}

fn epub(entry: &str) -> Option<String> {
    match book_of_epub_entry(entry) {
        Ok(book) => book.map(|b| b.path),
        Err(e) => panic!("{} is outside", e.path),
    }
}

fn marked(path: &str, is_file: bool) -> Option<String> {
    match book_of_html_entry(&HtmlEntry { path: path.to_string(), is_file }) {
        Ok(book) => book.map(|b| b.path),
        Err(e) => panic!("{} is outside", e.path),
    }
}

#[test]
fn books_among_the_entries() {
    assert_eq!(epub("./epubs/sci-fi/dune.epub"), Some("sci-fi/dune".to_string()));
    assert_eq!(epub("./epubs/a.b.epub"), Some("a.b".to_string()));
    assert_eq!(epub("./epubs/dune.EPUB"), None);
    assert_eq!(epub("./epubs/dune.txt"), None);
    assert_eq!(epub("./epubs/.epub"), None);
    assert_eq!(epub("./epubs/api/dune.epub"), None);
    assert_eq!(epub("./epubs/apis/dune.epub"), Some("apis/dune".to_string()));
    assert_eq!(epub("./epubs"), None);
    match book_of_epub_entry("./other/dune.epub") {
        Ok(_) => panic!("the entry is outside"),
        Err(e) => assert_eq!(e.path, "./other/dune.epub"),
    }
}

#[test]
fn marks_of_converted_books() {
    assert_eq!(marked("./html/sci-fi/dune/.hash", true), Some("sci-fi/dune".to_string()));
    assert_eq!(marked("./html/.hash", true), Some("".to_string()));
    assert_eq!(marked("./html/dune/.hash", false), None);
    assert_eq!(marked("./html/dune/index.json", true), None);
    assert_eq!(marked("./elsewhere/x", true), None);
    match book_of_html_entry(&HtmlEntry { path: "./elsewhere/.hash".to_string(), is_file: true }) {
        Ok(_) => panic!("the entry is outside"),
        Err(e) => assert_eq!(e.path, "./elsewhere/.hash"),
    }
}

#[test]
fn paths_of_a_book() {
    let book = DirHelper::new("sci-fi/dune".to_string());
    assert_eq!(book.epub_file_path(), "./epubs/sci-fi/dune.epub");
    assert_eq!(book.html_dir(), "./html/sci-fi/dune");
    let dotted = DirHelper::new("v1.0".to_string());
    assert_eq!(dotted.epub_file_path(), "./epubs/v1.0.epub");
}

#[test]
fn the_file_of_a_book_is_the_entry() {
    for entry in ["./epubs/dune.epub", "./epubs/a/b.c.epub", "./epubs/x/ .epub"] {
        let book = DirHelper::new(epub(entry).unwrap());
        assert_eq!(book.epub_file_path(), entry);
        let hash = hash_file_path(&book.html_dir());
        assert_eq!(marked(&hash, true), Some(book.path));
    }
}

fn planned(epubs: &[&str], marks: &[&str]) -> Plan {
    let epubs: Vec<String> = epubs.iter().map(|s| s.to_string()).collect();
    let marks: Vec<HtmlEntry> =
        marks.iter().map(|s| HtmlEntry { path: s.to_string(), is_file: true }).collect();
    match plan_extraction(&epubs, &marks) {
        Ok(plan) => plan,
        Err(e) => panic!("{} is outside", e.path),
    }
}

fn paths(books: &[DirHelper]) -> Vec<&str> {
    books.iter().map(|b| b.path.as_str()).collect()
}

#[test]
fn every_book_is_converted_and_gone_books_are_removed() {
    let plan = planned(
        &["./epubs", "./epubs/dune.epub", "./epubs/sub", "./epubs/sub/emma.epub", "./epubs/sub/emma.epub"],
        &["./html/dune/.hash", "./html/dune/index.json", "./html/old/.hash", "./html/sub/gone/.hash"],
    );
    assert_eq!(paths(&plan.convert), vec!["dune", "sub/emma"]);
    assert_eq!(paths(&plan.remove), vec!["old", "sub/gone"]);
}

#[test]
fn a_converted_book_stays_while_its_file_is_there() {
    let book = DirHelper::new(epub("./epubs/sub/dune.epub").unwrap());
    let hash = hash_file_path(&book.html_dir());
    assert!(planned(&["./epubs/sub/dune.epub"], &[&hash]).remove.is_empty());
    assert_eq!(paths(&planned(&[], &[&hash]).remove), vec!["sub/dune"]);
}

#[test]
fn a_file_of_two_dots_is_told_by_them() {
    assert_eq!(epub("./epubs/..epub"), Some("..".to_string()));
    assert_eq!(epub("./epubs/...epub"), Some("..".to_string()));
}

#[test]
fn nothing_to_do() {
    let plan = planned(&[], &[]);
    assert!(plan.convert.is_empty());
    assert!(plan.remove.is_empty());
}

#[test]
fn the_first_stray_entry_is_reported() {
    let epubs = vec!["./epubs/a.epub".to_string(), "./x/1".to_string(), "./x/2".to_string()];
    let marks = vec![HtmlEntry { path: "./y/.hash".to_string(), is_file: true }];
    match plan_extraction(&epubs, &marks) {
        Ok(_) => panic!("two entries are outside"),
        Err(e) => assert_eq!(e.path, "./x/1"),
    }
    match plan_extraction(&vec!["./epubs/a.epub".to_string()], &marks) {
        Ok(_) => panic!("a mark is outside"),
        Err(e) => assert_eq!(e.path, "./y/.hash"),
    }
}

#[test]
fn steps_of_a_walk() {
    assert!(matches!(walk_step("./epubs/sub", true, "./epubs", "./html"), Ok(WalkStep::Descend)));
    assert!(matches!(walk_step("./epubs/x.epub", true, "./epubs", "./html"), Ok(WalkStep::Descend)));
    assert!(matches!(walk_step("./epubs/notes.txt", false, "./epubs", "./html"), Ok(WalkStep::Skip)));
    match walk_step("./epubs/sub/dune.epub", false, "./epubs", "./html") {
        Ok(WalkStep::Convert { out_dir }) => assert_eq!(out_dir, "./html/sub/dune"),
        _ => panic!("a book is converted"),
    }
    match walk_step("./epubs/dune.epub", false, "./epubs", "./html") {
        Ok(WalkStep::Convert { out_dir }) => assert_eq!(out_dir, "./html/dune"),
        _ => panic!("a book is converted"),
    }
    match walk_step("./else/dune.epub", false, "./epubs", "./html") {
        Err(e) => assert_eq!(e.path, "./else/dune.epub"),
        Ok(_) => panic!("the entry is outside"),
    }
}

#[test]
fn both_editions_convert_to_the_same_directory() {
    for entry in ["./epubs/sub/dune.epub", "./epubs/a.b.epub"] {
        let book = DirHelper::new(epub(entry).unwrap());
        match walk_step(entry, false, "./epubs", "./html") {
            Ok(WalkStep::Convert { out_dir }) => assert_eq!(out_dir, book.html_dir()),
            _ => panic!("a book is converted"),
        }
    }
}
