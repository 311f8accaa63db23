use epub_server::edition::{Edition, DATA_DIR, EPUBS_DIR, HTML_DIR, POLL_INTERVAL_SECS};
use epub_server::extractor::index_json::{BookIndex, SectionEntry};
use epub_server::server::breadcrumbs::build_breadcrumbs;
use epub_server::server::content_type::{guess_content_type, static_content_type};
use epub_server::server::directory::{
    book_marker_path, directory_view, list_entries, render_directory, RawEntry,
};
use epub_server::server::previous_path::{previous_file, redirect_target, PreviousPage};
use epub_server::server::section_view::{locate_section, section_view};
use epub_server::server::serve::{
    asks_for_raw, file_answer, first_step, next_step, page_to_keep, request_paths, Answer, FileAnswer, Step,
};

fn raw(name: &str, is_dir: Option<bool>) -> RawEntry {
    RawEntry { name: Some(name.to_string()), is_dir }
}

fn crumbs(rel_path: &str) -> Vec<(String, String)> {
    build_breadcrumbs(rel_path).into_iter().map(|c| (c.url, c.name)).collect()
}

fn listed(entries: &Vec<RawEntry>, edition: Edition) -> Vec<(String, bool)> {
    list_entries(entries, edition).into_iter().map(|e| (e.name, e.is_dir)).collect()
}

fn pair(a: &str, b: &str) -> (String, String) {
    (a.to_string(), b.to_string())
}

#[test]
fn the_settings() {
    assert_eq!(EPUBS_DIR, "./epubs");
    assert_eq!(HTML_DIR, "./html");
    assert_eq!(DATA_DIR, "./data");
    assert_eq!(POLL_INTERVAL_SECS, 60);
    assert_eq!(Edition::Plain.index_name(), "index.html");
    assert_eq!(Edition::Reader.index_name(), "index.json");
}

#[test]
fn the_trail_to_a_page() {
    assert_eq!(crumbs(""), vec![pair("/", "root")]);
    assert_eq!(crumbs("sci-fi"), vec![pair("/", "root"), pair("/sci-fi/", "sci-fi")]);
    assert_eq!(
        crumbs("sci-fi//dune/"),
        vec![pair("/", "root"), pair("/sci-fi/", "sci-fi"), pair("/sci-fi//dune/", "dune")]
    );
    assert_eq!(crumbs("//"), vec![pair("/", "root")]);
}

#[test]
fn content_types_of_files() {
    let known = [
        ("a.html", "text/html; charset=utf-8"),
        ("a.htm", "text/html; charset=utf-8"),
        ("./html/a/b.css", "text/css; charset=utf-8"),
        ("a.js", "application/javascript"),
        ("a.json", "application/json"),
        ("a.png", "image/png"),
        ("a.jpg", "image/jpeg"),
        ("a.jpeg", "image/jpeg"),
        ("a.gif", "image/gif"),
        ("a.svg", "image/svg+xml"),
        ("a.txt", "text/plain; charset=utf-8"),
        ("a.pdf", "application/pdf"),
        ("a.woff", "font/woff"),
        ("a.b.woff2", "font/woff2"),
    ];
    for (path, expected) in known {
        assert_eq!(guess_content_type(path), expected, "{path}");
    }
    for path in ["a", ".html", "a.HTML", "a.epub", "a.", "html", ""] {
        assert_eq!(guess_content_type(path), "application/octet-stream", "{path}");
    }
    assert_eq!(static_content_type("common.css"), Some("text/css; charset=utf-8"));
    assert_eq!(static_content_type("other.css"), None);
}

#[test]
fn directories_come_first_and_names_are_in_order() {
    let entries = vec![
        raw("b.txt", Some(false)),
        raw("Zed", Some(true)),
        raw(".hash", Some(false)),
        raw("a.txt", Some(false)),
        raw("abc", Some(true)),
        RawEntry { name: None, is_dir: Some(true) },
        raw("?", None),
    ];
    assert_eq!(
        listed(&entries, Edition::Plain),
        vec![
            ("Zed".to_string(), true),
            ("abc".to_string(), true),
            ("?".to_string(), false),
            ("a.txt".to_string(), false),
            ("b.txt".to_string(), false),
        ]
    );
    assert_eq!(
        listed(&entries, Edition::Reader),
        vec![
            ("Zed".to_string(), true),
            ("abc".to_string(), true),
            ("a.txt".to_string(), false),
            ("b.txt".to_string(), false),
        ]
    );
}

#[test]
fn the_order_is_that_of_std() {
    let names = ["ß", "z", "Z", "é", "a", "", "日本", "aa", "\u{1f4d6}", "\u{ffff}", "a b", "a"];
    let mut entries: Vec<RawEntry> = Vec::new();
    let mut expected: Vec<(String, bool)> = Vec::new();
    for name in names {
        for is_dir in [false, true] {
            entries.push(raw(name, Some(is_dir)));
            expected.push((name.to_string(), is_dir));
        }
    }
    expected.sort_by_key(|e| (!e.1, e.0.clone()));
    assert_eq!(listed(&entries, Edition::Reader), expected);
}

#[test]
fn the_plain_listing() {
    let entries = vec![raw("b & c", Some(false)), raw("a", Some(true)), raw(".x", Some(true))];
    assert_eq!(
        render_directory(&entries, ""),
        "<!DOCTYPE html>\n<html>\n<head><meta charset=\"utf-8\"><title>Index</title></head>\n<body>\n<pre>\n\
         <a href=\"a/\">a/</a>\n<a href=\"b &amp; c\">b &amp; c</a>\n</pre>\n</body>\n</html>\n"
    );
    assert_eq!(
        render_directory(&Vec::new(), "sci-fi/<x>"),
        "<!DOCTYPE html>\n<html>\n<head><meta charset=\"utf-8\"><title>&lt;x&gt;</title></head>\n<body>\n<pre>\n\
         <a href=\"../\">../</a>\n</pre>\n</body>\n</html>\n"
    );
    assert!(render_directory(&Vec::new(), "sci-fi/").contains("<title></title>"));
}

#[test]
fn the_directory_view() {
    let entries = vec![raw("dune", Some(true)), raw("notes", Some(true)), raw("readme", Some(false))];
    let list = list_entries(&entries, Edition::Reader);
    let view = directory_view("sci-fi", &list, &vec![true, false, true]);
    assert_eq!(view.current_path, "/sci-fi/");
    assert_eq!(view.parent_url, Some("../".to_string()));
    assert_eq!(view.breadcrumbs.len(), 2);
    let seen: Vec<(&str, bool, bool, &str)> = view
        .entries
        .iter()
        .map(|e| (e.url.as_str(), e.is_dir, e.is_book, e.name.as_str()))
        .collect();
    assert_eq!(
        seen,
        vec![
            ("dune/", true, true, "dune"),
            ("notes/", true, false, "notes"),
            ("readme", false, false, "readme"),
        ]
    );
    let root = directory_view("", &Vec::new(), &Vec::new());
    assert_eq!(root.current_path, "/");
    assert_eq!(root.parent_url, None);
    assert!(root.entries.is_empty());
    assert_eq!(book_marker_path("./html/sci-fi", "dune"), "./html/sci-fi/dune/index.json");
}

fn index() -> BookIndex {
    let entry = |title: &str, filename: &str| SectionEntry {
        title: title.to_string(),
        filename: filename.to_string(),
    };
    BookIndex {
        book_name: "Dune".to_string(),
        sections: vec![
            entry("One", "section_001.html"),
            entry("Three", "section_003.html"),
            entry("Four", "section_004.html"),
        ],
    }
}

#[test]
fn section_files_are_known_by_their_names() {
    assert_eq!(
        locate_section("./html/sci-fi/dune/section_001.html"),
        Some(pair("section_001.html", "./html/sci-fi/dune/index.json"))
    );
    assert_eq!(locate_section("./html/dune/section_001.htm"), None);
    assert_eq!(locate_section("./html/dune/chapter.html"), None);
    assert_eq!(locate_section("./html/dune/.."), None);
    assert_eq!(locate_section(""), None);
}

#[test]
fn a_section_between_its_neighbours() {
    let view = section_view(&index(), "section_003.html", "sci-fi/dune/section_003.html");
    assert_eq!(view.book_name, "Dune");
    assert_eq!(view.iframe_src, "section_003.html?raw=true");
    assert_eq!(view.prev_url, Some("section_001.html".to_string()));
    assert_eq!(view.next_url, Some("section_004.html".to_string()));
    let names: Vec<&str> = view.breadcrumbs.iter().map(|c| c.name.as_str()).collect();
    assert_eq!(names, vec!["root", "sci-fi", "dune"]);
}

#[test]
fn the_first_and_the_last_section() {
    let first = section_view(&index(), "section_001.html", "section_001.html");
    assert_eq!(first.prev_url, None);
    assert_eq!(first.next_url, Some("section_003.html".to_string()));
    assert_eq!(first.breadcrumbs.len(), 1);
    let last = section_view(&index(), "section_004.html", "d/section_004.html");
    assert_eq!(last.prev_url, Some("section_003.html".to_string()));
    assert_eq!(last.next_url, None);
}

#[test]
fn a_section_that_is_not_listed_has_no_neighbours() {
    let view = section_view(&index(), "section_002.html", "d/section_002.html");
    assert_eq!(view.book_name, "Dune");
    assert_eq!(view.iframe_src, "section_002.html?raw=true");
    assert_eq!(view.breadcrumbs.len(), 2);
    assert_eq!(view.prev_url, None);
    assert_eq!(view.next_url, None);
}

#[test]
fn going_on_and_back_leads_to_the_same_section() {
    let here = section_view(&index(), "section_001.html", "x");
    let next = section_view(&index(), &here.next_url.unwrap(), "x");
    assert_eq!(next.prev_url, Some("section_001.html".to_string()));
}

#[test]
fn requests_that_climb_are_refused() {
    for rel_path in ["..", "a/../b", "../x", "a/.."] {
        assert!(request_paths(rel_path, Edition::Reader).is_none(), "{rel_path}");
        assert!(first_step(rel_path) == Step::Done(Answer::Forbidden), "{rel_path}");
    }
    for rel_path in ["", "a", "a/...", "..a/b", "./a"] {
        assert!(request_paths(rel_path, Edition::Plain).is_some(), "{rel_path}");
        assert!(first_step(rel_path) == Step::ReadIndex, "{rel_path}");
    }
}

#[test]
fn an_absolute_path_stands_for_itself() {
    let paths = request_paths("/srv/books", Edition::Reader).unwrap();
    assert_eq!(paths.full_path, "/srv/books");
    assert_eq!(paths.index_path, "/srv/books/index.json");
}

#[test]
fn the_parameter_raw_asks_for_the_file() {
    let names = |list: &[&str]| -> Vec<String> { list.iter().map(|s| s.to_string()).collect() };
    assert!(asks_for_raw(&names(&["raw"])));
    assert!(asks_for_raw(&names(&["x", "raw"])));
    assert!(!asks_for_raw(&names(&[])));
    assert!(!asks_for_raw(&names(&["Raw", "raw=true", ""])));
}

#[test]
fn paths_of_a_request() {
    let plain = request_paths("sci-fi/dune", Edition::Plain).unwrap();
    assert_eq!(plain.full_path, "./html/sci-fi/dune");
    assert_eq!(plain.index_path, "./html/sci-fi/dune/index.html");
    let reader = request_paths("", Edition::Reader).unwrap();
    assert_eq!(reader.full_path, "./html/");
    assert_eq!(reader.index_path, "./html/index.json");
}

fn answer(found: [bool; 3]) -> Step {
    let mut step = first_step("dune");
    for succeeded in found {
        step = next_step(step, succeeded);
    }
    step
}

#[test]
fn the_first_that_is_there_answers() {
    assert!(answer([true, true, true]) == Step::Done(Answer::BookIndex));
    assert!(answer([false, true, true]) == Step::Done(Answer::Directory));
    assert!(answer([false, false, true]) == Step::Done(Answer::File));
    assert!(answer([false, false, false]) == Step::Done(Answer::NotFound));
    assert!(next_step(Step::ReadIndex, false) == Step::ReadDirectory);
    assert!(next_step(Step::ReadDirectory, false) == Step::ReadFile);
}

#[test]
fn a_section_is_wrapped_unless_asked_for_raw() {
    assert!(file_answer(false, true) == FileAnswer::Section);
    assert!(file_answer(false, false) == FileAnswer::Bytes);
    assert!(file_answer(true, true) == FileAnswer::Bytes);
    assert!(file_answer(true, false) == FileAnswer::Bytes);
}

#[test]
fn the_page_read_last() {
    assert_eq!(previous_file(), "./data/previous.json");
    assert_eq!(PreviousPage::set("a/b.html"), "{\n  \"path\": \"a/b.html\"\n}");
    let json = PreviousPage::set("sci-fi/dune/section_001.html");
    let kept = PreviousPage::read(json.as_bytes()).unwrap();
    assert_eq!(kept.clone().path, "sci-fi/dune/section_001.html");
    let path = PreviousPage::get(Some(json.as_bytes()));
    assert_eq!(path, Some("sci-fi/dune/section_001.html".to_string()));
    assert_eq!(redirect_target(path), "sci-fi/dune/section_001.html");
    assert_eq!(PreviousPage::get(None), None);
    assert_eq!(redirect_target(None), "/");
}

#[test]
fn the_page_set_last_is_read() {
    let mut stored: Vec<u8> = b"{".to_vec();
    assert_eq!(PreviousPage::get(Some(&stored)), None);
    for path in ["", "a/b.html", "\"quoted\"\\", "caf\u{e9}\n\u{1}", "\u{1f4d6}", "$x"] {
        stored = PreviousPage::set(path).into_bytes();
        assert_eq!(PreviousPage::get(Some(&stored)), Some(path.to_string()));
        let value: serde_json::Value = serde_json::from_slice(&stored).unwrap();
        assert_eq!(value["path"].as_str(), Some(path));
        assert_eq!(value.as_object().unwrap().len(), 1);
    }
}

#[test]
fn what_tells_no_page_is_not_read() {
    for json in ["", "{}", "null", "\"x\"", "[]", "[1]", "[\"a\", \"b\"]", "{\"path\": 1}", "{\"path\": \"x\""] {
        assert!(PreviousPage::read(json.as_bytes()).is_none(), "{json}");
    }
    assert!(PreviousPage::read(b"{\"path\": \"\xff\"}").is_none());
    let kept = |json: &str| PreviousPage::read(json.as_bytes()).map(|p| p.path);
    assert_eq!(kept("{\"more\": [], \"path\": \"x\"}"), Some("x".to_string()));
    assert_eq!(kept("[\"x\"]"), Some("x".to_string()));
}

#[test]
fn only_a_section_that_is_shown_is_kept() {
    assert_eq!(page_to_keep(FileAnswer::Section, "a/section_001.html"), Some("a/section_001.html".to_string()));
    assert_eq!(page_to_keep(FileAnswer::Bytes, "a/section_001.html"), None);
}
