use epub_server::extractor::index_json;
use epub_server::extractor::index_page;
use epub_server::extractor::links::rewrite_resource_paths;
use epub_server::extractor::script::{inject_scroll_script, SCROLL_SCRIPT};
use epub_server::extractor::title::extract_title_from_html;

fn title(html: &str) -> Option<String> {
    extract_title_from_html(html)
}

fn pairs(list: &[(&str, &str)]) -> Vec<(String, String)> {
    list.iter().map(|(a, b)| (a.to_string(), b.to_string())).collect()
}

#[test]
fn a_reference_is_resolved_from_the_section() {
    let page = "<img src=\"../images/foo.jpg\">";
    assert_eq!(
        rewrite_resource_paths(page, "OEBPS/xhtml/ch01.xhtml", "OEBPS"),
        "<img src=\"images/foo.jpg\">"
    );
    assert_eq!(
        rewrite_resource_paths(page, "OEBPS/xhtml/ch01.xhtml", "OEBPS/"),
        "<img src=\"images/foo.jpg\">"
    );
}

#[test]
fn both_attributes_and_both_quotes_are_rewritten() {
    let page = "<link href='../css/a.css'><img src='b.png'><a href=\"ch02.xhtml#p1\"><img src=\"./c.png\">";
    assert_eq!(
        rewrite_resource_paths(page, "OEBPS/xhtml/ch01.xhtml", "OEBPS"),
        "<link href='css/a.css'><img src='xhtml/b.png'><a href=\"xhtml/ch02.xhtml#p1\"><img src=\"xhtml/c.png\">"
    );
}

#[test]
fn outside_references_stay() {
    for r in [
        "http://x/y/../z",
        "https://x/../y",
        "data:image/png;base64,AA==",
        "ftp://example.com/x",
        "mailto:someone@example.com",
        "HTTP://x/./y",
        "svn+ssh://x/../y",
        "tel:+1-23",
        "#note",
        "",
    ] {
        let page = format!("<a href=\"{r}\">");
        assert_eq!(rewrite_resource_paths(&page, "OEBPS/a/b.xhtml", "OEBPS"), page);
    }
}

#[test]
fn a_colon_alone_is_no_scheme() {
    let rewritten = |r: &str| {
        rewrite_resource_paths(&format!("<a href=\"{r}\">"), "OEBPS/a/b.xhtml", "OEBPS")
    };
    assert_eq!(rewritten("./x:y"), "<a href=\"a/x:y\">");
    assert_eq!(rewritten("../c/d:e"), "<a href=\"c/d:e\">");
    assert_eq!(rewritten(":x"), "<a href=\"a/:x\">");
    assert_eq!(rewritten("1a:x"), "<a href=\"a/1a:x\">");
    assert_eq!(rewritten("x?y:z"), "<a href=\"a/x?y:z\">");
    assert_eq!(rewritten("mailto"), "<a href=\"a/mailto\">");
}

#[test]
fn only_the_reference_is_rewritten() {
    let before = "<p>\u{e9} src = \"../x\"</p><img alt='../y' ";
    let behind = " title=\"../z\"><p>../w</p>";
    for (marker, quote) in [("src=\"", "\""), ("src='", "'"), ("href=\"", "\""), ("href='", "'")] {
        assert_eq!(
            rewrite_resource_paths(
                &format!("{before}{marker}../images/foo.jpg{quote}{behind}"),
                "OEBPS/xhtml/ch01.xhtml",
                "OEBPS"
            ),
            format!("{before}{marker}images/foo.jpg{quote}{behind}")
        );
    }
}

#[test]
fn a_reference_that_becomes_a_marker_is_looked_at_again() {
    assert_eq!(
        rewrite_resource_paths("<a src=\"href=/.\"../x\">", "d/e/a.xhtml", "d"),
        "<a src=\"e/href=\"x\">"
    );
    // Without a quote behind it, or with a reference that stays, nothing changes.
    assert_eq!(
        rewrite_resource_paths("<a src=\"href=/.\"../x>", "d/e/a.xhtml", "d"),
        "<a src=\"e/href=\"../x>"
    );
    assert_eq!(
        rewrite_resource_paths("<a src=\"href=/.\"#x\">", "d/e/a.xhtml", "d"),
        "<a src=\"e/href=\"#x\">"
    );
}

#[test]
fn a_reference_outside_the_root_keeps_its_path() {
    assert_eq!(
        rewrite_resource_paths("<img src=\"../cover.jpg\">", "OEBPS/ch.xhtml", "OEBPS"),
        "<img src=\"cover.jpg\">"
    );
    assert_eq!(
        rewrite_resource_paths("<img src=\"/abs/x.jpg\">", "OEBPS/ch.xhtml", "OEBPS"),
        "<img src=\"/abs/x.jpg\">"
    );
}

#[test]
fn an_open_attribute_ends_the_rewriting() {
    let page = "<img src=\"../a.png\"><img src=\"../b.png";
    assert_eq!(
        rewrite_resource_paths(page, "O/x/c.xhtml", "O"),
        "<img src=\"a.png\"><img src=\"../b.png"
    );
}

#[test]
fn a_page_without_links_stays() {
    let page = "<p>Größe: 3 ≤ 4</p>";
    assert_eq!(rewrite_resource_paths(page, "OEBPS/ch.xhtml", "OEBPS"), page);
}

#[test]
fn the_script_goes_before_the_last_body_end() {
    let page = inject_scroll_script("<body>ß</BODY></Body></html>");
    assert_eq!(page, format!("<body>ß</BODY>\n{SCROLL_SCRIPT}\n</Body></html>"));
}

#[test]
fn a_fragment_gets_the_script_at_its_end() {
    assert_eq!(inject_scroll_script("<p>x</p>"), format!("<p>x</p>\n{SCROLL_SCRIPT}"));
    assert_eq!(inject_scroll_script(""), format!("\n{SCROLL_SCRIPT}"));
}

#[test]
fn the_script_reports_and_restores_the_place() {
    assert!(SCROLL_SCRIPT.starts_with("<script>\n(function() {\n"));
    assert!(SCROLL_SCRIPT.ends_with("})();\n</script>"));
    assert!(SCROLL_SCRIPT.contains("fetch('/api/updateReadPosition', {"));
    assert!(SCROLL_SCRIPT.contains("fetch('/api/readPosition?path=' + encodeURIComponent"));
}

#[test]
fn titles_of_pages() {
    assert_eq!(title("<title> Dune </title>"), Some("Dune".to_string()));
    assert_eq!(title("<HTML><TITLE>A<b></TITLE>"), Some("A<b>".to_string()));
    assert_eq!(title("<title></title>"), None);
    assert_eq!(title("<title> \n </title>"), None);
    assert_eq!(title("<title>open"), None);
    assert_eq!(title("no title"), None);
    assert_eq!(title("</title><title>x</title>"), Some("x".to_string()));
    assert_eq!(title("<p>ÄÖÜ</p><Title>Über</titlE>"), Some("Über".to_string()));
}

#[test]
fn the_title_is_the_text_of_its_tag() {
    // The small letters of U+0130 take more bytes than it does, those of U+212A fewer.
    for before in ["", "\u{130}", "\u{130}\u{130}", "\u{e9}\u{212a}", "\u{1e9e}\u{65e5}", "<p>\u{1f4d6}"] {
        for text in ["X", "abc", "\u{e9}", "\u{65e5}\u{672c}"] {
            let page = format!("{before}<title>{text}</title>\u{130}");
            assert_eq!(title(&page), Some(text.to_string()), "{page}");
            let page = format!("{before}<tItLe> {text}\n</TITLE>");
            assert_eq!(title(&page), Some(text.to_string()), "{page}");
        }
    }
}

#[test]
fn only_ascii_letters_make_the_tag() {
    assert_eq!(title("<t\u{130}tle>x</title>"), None);
    assert_eq!(title("<title>x</t\u{131}tle>"), None);
}

#[test]
fn the_index_page() {
    let sections = pairs(&[("One & two", "section_001.html"), ("Three", "section_003.html")]);
    assert_eq!(
        index_page::generate_index("A <book>", &sections),
        "<!DOCTYPE html>\n<html>\n<head><meta charset=\"utf-8\"><title>A &lt;book&gt;</title></head>\n<body>\n\
         <h1>A &lt;book&gt;</h1>\n<ul>\n\
         \u{20} <li><a href=\"section_001.html\">One &amp; two</a></li>\n\
         \u{20} <li><a href=\"section_003.html\">Three</a></li>\n\
         </ul>\n</body>\n</html>\n"
    );
    assert_eq!(
        index_page::generate_index("", &[]),
        "<!DOCTYPE html>\n<html>\n<head><meta charset=\"utf-8\"><title></title></head>\n<body>\n<h1></h1>\n<ul>\n\
         </ul>\n</body>\n</html>\n"
    );
}

#[test]
fn the_index_document() {
    let sections = pairs(&[("One \"1\"", "section_001.html"), ("Größe", "section_002.html")]);
    assert_eq!(
        index_json::generate_index("Dune", &sections),
        "{\n  \"book_name\": \"Dune\",\n  \"sections\": [\n    {\n      \"filename\": \"section_001.html\",\n      \
         \"title\": \"One \\\"1\\\"\"\n    },\n    {\n      \"filename\": \"section_002.html\",\n      \
         \"title\": \"Größe\"\n    }\n  ]\n}"
    );
    assert_eq!(
        index_json::generate_index("x", &[]),
        "{\n  \"book_name\": \"x\",\n  \"sections\": []\n}"
    );
}

#[test]
fn the_index_document_reads_back() {
    let sections = pairs(&[("T\n1", "a"), ("\\", "b"), ("", "c"), ("\"\u{7f}\u{2028}", "\u{1f4d6}")]);
    for (name, list) in [("N\u{1}\"", &sections[..]), ("", &sections[..0]), ("x", &sections[1..2])] {
        let text = index_json::generate_index(name, list);
        let index = index_json::read_index(text.as_bytes()).unwrap();
        assert_eq!(index.book_name, name);
        let seen: Vec<(String, String)> =
            index.sections.into_iter().map(|s| (s.title, s.filename)).collect();
        assert_eq!(seen, list);
        assert!(serde_json::from_str::<serde_json::Value>(&text).unwrap().is_object());
    }
}

#[test]
fn what_is_no_index_is_not_read() {
    let read = |json: &str| index_json::read_index(json.as_bytes());
    for json in [
        "",
        "{",
        "null",
        "[]",
        "{}",
        "{\"book_name\": \"x\"}",
        "{\"sections\": []}",
        "{\"book_name\": 1, \"sections\": []}",
        "{\"book_name\": \"x\", \"sections\": {}}",
        "{\"book_name\": \"x\", \"sections\": [1]}",
        "{\"book_name\": \"x\", \"sections\": [{\"title\": \"t\"}]}",
        "{\"book_name\": \"x\", \"sections\": [{\"title\": \"t\", \"filename\": null}]}",
    ] {
        assert!(read(json).is_none(), "{json}");
    }
    assert!(index_json::read_index(b"{\"book_name\": \"\xff\", \"sections\": []}").is_none());
    let index = read("{\"more\": 1, \"sections\": [], \"book_name\": \"x\"}").unwrap();
    assert_eq!(index.book_name, "x");
    assert!(index.sections.is_empty());
}
