use epub_server::text::{
    find_chars, is_whitespace, rfind_chars, split_chars, starts_with, ends_with, to_ascii_lowercase,
    to_chars, to_text, trim,
};
use epub_server::util::{escape_html, to_decimal, to_decimal3};

fn chars(s: &str) -> Vec<char> {
    s.chars().collect()
}

fn text(v: &[char]) -> String {
    v.iter().collect()
}

#[test]
fn characters_and_back() {
    for s in ["", "abc", "Größe ≤ 3", "日本語\u{1f4d6}"] {
        assert_eq!(to_chars(s), chars(s));
        assert_eq!(to_text(&chars(s)), s);
    }
}

#[test]
fn white_space_is_unicode_white_space() {
    for code in 0u32..0x110000 {
        if let Some(c) = char::from_u32(code) {
            assert_eq!(is_whitespace(c), c.is_whitespace(), "{code:x}");
        }
    }
}

#[test]
fn trimming() {
    for s in ["", "  ", "a", " a ", "\t\n a b \u{3000}", "\u{85}x\u{a0}", "a\u{200b} "] {
        assert_eq!(text(&trim(&chars(s))), s.trim());
    }
}

#[test]
fn searching() {
    assert_eq!(find_chars(&chars("abcabc"), &chars("bc"), 0), Some(1));
    assert_eq!(find_chars(&chars("abcabc"), &chars("bc"), 2), Some(4));
    assert_eq!(find_chars(&chars("abcabc"), &chars("bc"), 5), None);
    assert_eq!(find_chars(&chars("ab"), &chars("abc"), 0), None);
    assert_eq!(rfind_chars(&chars("abcabc"), &chars("bc")), Some(4));
    assert_eq!(rfind_chars(&chars("abcabc"), &chars("x")), None);
    assert!(starts_with(&chars("section_001"), "section_"));
    assert!(!starts_with(&chars("section"), "section_"));
    assert!(ends_with(&chars("section_001.html"), ".html"));
    assert!(!ends_with(&chars("html"), ".html"));
}

#[test]
fn splitting() {
    for s in ["", "/", "a", "a/b", "/a//b/", "a/"] {
        let parts: Vec<String> = split_chars(&chars(s), '/').iter().map(|p| text(p)).collect();
        let expected: Vec<String> = s.split('/').map(String::from).collect();
        assert_eq!(parts, expected);
    }
}

#[test]
fn small_ascii_letters() {
    for s in ["", "</BODY>", "aZ09", "ÄÖ İ K"] {
        assert_eq!(text(&to_ascii_lowercase(&chars(s))), s.to_ascii_lowercase());
    }
}

#[test]
fn escaped_markup() {
    assert_eq!(escape_html("a < b & \"c\" > d"), "a &lt; b &amp; &quot;c&quot; &gt; d");
    assert_eq!(escape_html("&lt;"), "&amp;lt;");
    assert_eq!(escape_html("it's"), "it's");
    assert_eq!(escape_html(""), "");
}

#[test]
fn escaped_text_holds_no_markup() {
    for s in ["<script>", "\"><b>", "<<>>", "plain"] {
        let out = escape_html(s);
        assert!(!out.contains('<') && !out.contains('>') && !out.contains('"'));
    }
}

#[test]
fn decimal_numbers() {
    for n in [0usize, 1, 9, 10, 99, 100, 999, 1000, 123456, usize::MAX] {
        assert_eq!(text(&to_decimal(n)), n.to_string());
        assert_eq!(text(&to_decimal3(n)), format!("{n:03}"));
    }
}
