use std::path::{Component, Path, PathBuf};

use epub_server::path::{
    components, extension, file_name, file_stem, has_parent_dir, join, names_same_path, normalize_path,
    parent, starts_with_path, strip_prefix, without_extension,
};

fn chars(s: &str) -> Vec<char> {
    s.chars().collect()
}

fn text(v: &[char]) -> String {
    v.iter().collect()
}

fn texts(v: &[Vec<char>]) -> Vec<String> {
    v.iter().map(|c| text(c)).collect()
}

/// Every text of at most `len` of the characters `/`, `.` and `a`.
fn samples(len: usize) -> Vec<String> {
    let mut all: Vec<String> = vec![String::new()];
    let mut last: Vec<String> = all.clone();
    for _ in 0..len {
        let mut next: Vec<String> = Vec::new();
        for s in &last {
            for c in ['/', '.', 'a'] {
                next.push(format!("{s}{c}"));
            }
        }
        all.extend(next.clone());
        last = next;
    }
    all
}

fn std_text(p: &Path) -> String {
    p.to_str().unwrap().to_string()
}

#[test]
fn components_of_a_path() {
    assert_eq!(texts(&components(&chars("/a//./b/../c/"))), vec!["/", "a", "b", "..", "c"]);
    assert_eq!(texts(&components(&chars("./a/./b"))), vec![".", "a", "b"]);
    assert!(components(&chars("")).is_empty());
}

#[test]
fn components_agree_with_std() {
    for s in samples(7) {
        let expected: Vec<String> = Path::new(&s)
            .components()
            .map(|c| c.as_os_str().to_str().unwrap().to_string())
            .collect();
        assert_eq!(texts(&components(&chars(&s))), expected, "{s:?}");
        let climbs = Path::new(&s).components().any(|c| matches!(c, Component::ParentDir));
        assert_eq!(has_parent_dir(&chars(&s)), climbs, "{s:?}");
    }
}

#[test]
fn parts_agree_with_std() {
    for s in samples(7) {
        let p = Path::new(&s);
        let v = chars(&s);
        assert_eq!(
            file_name(&v).map(|n| text(&n)),
            p.file_name().map(|n| n.to_str().unwrap().to_string()),
            "{s:?}"
        );
        assert_eq!(
            file_stem(&v).map(|n| text(&n)),
            p.file_stem().map(|n| n.to_str().unwrap().to_string()),
            "{s:?}"
        );
        assert_eq!(
            extension(&v).map(|n| text(&n)),
            p.extension().map(|n| n.to_str().unwrap().to_string()),
            "{s:?}"
        );
        assert_eq!(parent(&v).map(|q| text(&q)), p.parent().map(std_text), "{s:?}");
    }
}

#[test]
fn extensions_are_taken_off_as_std_does() {
    for s in samples(7) {
        let bare = without_extension(&chars(&s));
        assert_eq!(text(&bare), std_text(&Path::new(&s).with_extension("")), "{s:?}");
    }
}

#[test]
fn pairs_agree_with_std() {
    let all = samples(4);
    for a in &all {
        for b in &all {
            let (p, q) = (Path::new(a), Path::new(b));
            let (v, w) = (chars(a), chars(b));
            assert_eq!(text(&join(&v, &w)), std_text(&p.join(q)), "{a:?} {b:?}");
            assert_eq!(names_same_path(&v, &w), p == q, "{a:?} {b:?}");
            assert_eq!(starts_with_path(&v, &w), p.starts_with(q), "{a:?} {b:?}");
            assert_eq!(
                strip_prefix(&v, &w).map(|r| text(&r)),
                p.strip_prefix(q).ok().map(std_text),
                "{a:?} {b:?}"
            );
        }
    }
}

#[test]
fn normal_forms() {
    assert_eq!(normalize_path("OEBPS/xhtml/../images/foo.jpg"), "OEBPS/images/foo.jpg");
    assert_eq!(normalize_path("./a/./b//c/"), "a/b/c");
    assert_eq!(normalize_path("../../a"), "a");
    assert_eq!(normalize_path("a/../.."), "");
    assert_eq!(normalize_path("/a/../b"), "/b");
    assert_eq!(normalize_path("/.."), "");
    assert_eq!(normalize_path(""), "");
}

/// The normal form built from std's own components.
fn std_normal(s: &str) -> String {
    let mut parts: Vec<String> = Vec::new();
    for component in Path::new(s).components() {
        match component {
            Component::ParentDir => {
                parts.pop();
            }
            Component::CurDir => {}
            other => parts.push(other.as_os_str().to_str().unwrap().to_string()),
        }
    }
    std_text(&parts.iter().collect::<PathBuf>())
}

#[test]
fn normal_forms_agree_with_std() {
    for s in samples(7) {
        assert_eq!(normalize_path(&s), std_normal(&s), "{s:?}");
    }
}

#[test]
fn a_normal_form_is_its_own() {
    for s in samples(7) {
        let once = normalize_path(&s);
        assert_eq!(normalize_path(&once), once, "{s:?}");
    }
}

#[test]
fn joining_and_stripping_undo_each_other() {
    let base = chars("./html");
    let whole = join(&base, &chars("sci-fi/dune"));
    assert_eq!(text(&whole), "./html/sci-fi/dune");
    assert_eq!(strip_prefix(&whole, &base).map(|r| text(&r)), Some("sci-fi/dune".to_string()));
    assert_eq!(parent(&whole).map(|q| text(&q)), Some("./html/sci-fi".to_string()));
    assert_eq!(text(&join(&base, &chars("/etc"))), "/etc");
}
