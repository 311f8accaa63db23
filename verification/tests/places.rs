use epub_server::extractor::output::info_file_path;
use epub_server::extractor::read_position::{ReadPosition, ReadPositionFileData};
use epub_server::extractor::scan::DirHelper;
use epub_server::extractor::sections::{name_section, name_section_file};
use epub_server::server::api_server::{
    begin_get, begin_update, continue_update, finish_get, finish_update, locate_place,
    parse_section_path, GetReadPositionQuery, GetStep, Loaded, UpdateReadPositionRequest, UpdateStep,
    GET_READ_POSITION, UPDATE_READ_POSITION,
};

fn pair(a: &str, b: &str) -> Option<(String, String)> {
    Some((a.to_string(), b.to_string()))
}

fn request(path: &str, node_path: &[usize], offset: usize) -> UpdateReadPositionRequest {
    UpdateReadPositionRequest { path: path.to_string(), node_path: node_path.to_vec(), offset }
}

fn query(path: &str) -> GetReadPositionQuery {
    GetReadPositionQuery { path: path.to_string() }
}

const PAGE: &str = "/sci-fi/dune/section_001.html";

#[test]
fn the_endpoints() {
    assert_eq!(UPDATE_READ_POSITION, "/updateReadPosition");
    assert_eq!(GET_READ_POSITION, "/readPosition");
}

#[test]
fn the_start_of_a_section() {
    let place = ReadPosition::new_default("section_001".to_string());
    assert_eq!(place.file_name, "section_001");
    assert!(place.node_path.is_empty());
    assert_eq!(place.offset, 0);
    assert_eq!(place.clone().file_name, "section_001");
}

#[test]
fn positions_are_kept_by_name() {
    let mut data = ReadPositionFileData::default();
    assert!(data.get("a").is_none());
    data.insert("a".to_string(), ReadPosition::new_default("a".to_string()));
    data.insert("b".to_string(), ReadPosition::new_default("b".to_string()));
    let moved = ReadPosition { file_name: "a".to_string(), node_path: vec![1, 2], offset: 7 };
    data.insert("a".to_string(), moved);
    assert_eq!(data.read_position.len(), 2);
    assert_eq!(data.get("a").unwrap().node_path, vec![1, 2]);
    assert_eq!(data.get("a").unwrap().offset, 7);
    assert_eq!(data.get("b").unwrap().offset, 0);
}

#[test]
fn addresses_of_sections() {
    assert_eq!(parse_section_path(PAGE), pair("./html/sci-fi/dune/.info.json", "section_001"));
    assert_eq!(
        parse_section_path("//a/section_2"),
        pair("./html/a/.info.json", "section_2")
    );
    assert_eq!(
        parse_section_path("/my%20books/a%2Fb/section_1.html"),
        pair("./html/my books/a/b/.info.json", "section_1")
    );
    assert_eq!(
        parse_section_path("/caf%C3%A9/section_1.html"),
        pair("./html/café/.info.json", "section_1")
    );
    assert_eq!(
        parse_section_path("/100%/%zz%4/section_1.html"),
        pair("./html/100%/%zz%4/.info.json", "section_1")
    );
}

#[test]
fn addresses_that_are_refused() {
    for path in [
        "",
        "/",
        "/section_001.html",
        "/dune/chapter_1.html",
        "/dune/../section_001.html",
        "/%2e%2e/section_001.html",
        "/dune/..",
        "/dune/%ff/section_001.html",
        "/dune/%C3/section_001.html",
    ] {
        assert_eq!(parse_section_path(path), None, "{path}");
    }
}

#[test]
fn a_decoded_address_is_not_decoded_again() {
    assert_eq!(locate_place("/a%20b/section_1.html"), pair("./html/a%20b/.info.json", "section_1"));
    assert_eq!(parse_section_path("/a%2520b/section_1.html"), pair("./html/a%20b/.info.json", "section_1"));
}

#[test]
fn a_section_page_has_its_place() {
    let book = DirHelper::new("sci-fi/dune".to_string());
    for i in [0usize, 4, 999] {
        let name = name_section(i);
        let address = format!("/{}/{}", book.path, name_section_file(&name));
        let info = info_file_path(&book.html_dir());
        assert_eq!(parse_section_path(&address), Some((info, name)));
    }
}

fn reply_of(step: UpdateStep) -> (u16, bool) {
    match step {
        UpdateStep::Reply { status, response } => (status, response.success),
        _ => panic!("a reply is expected"),
    }
}

#[test]
fn an_update_of_no_section_is_refused() {
    assert_eq!(reply_of(begin_update(&request("/dune/cover.png", &[], 0))), (400, false));
}

#[test]
fn an_update_reads_the_positions_first() {
    match begin_update(&request(PAGE, &[1], 2)) {
        UpdateStep::Read { info_path, section } => {
            assert_eq!(info_path, "./html/sci-fi/dune/.info.json");
            assert_eq!(section, "section_001");
        }
        _ => panic!("the positions are read first"),
    }
}

#[test]
fn positions_that_cannot_be_read_end_an_update() {
    let after = |loaded: Loaded| {
        reply_of(continue_update(request(PAGE, &[], 0), "i".to_string(), "s".to_string(), loaded))
    };
    assert_eq!(after(Loaded::Missing), (404, false));
    assert_eq!(after(Loaded::Unreadable), (500, false));
    assert_eq!(after(Loaded::Malformed), (500, false));
}

#[test]
fn the_end_of_an_update() {
    let (status, response) = finish_update(true);
    assert_eq!((status, response.success), (200, true));
    let (status, response) = finish_update(false);
    assert_eq!((status, response.success), (500, false));
}

fn update(data: ReadPositionFileData, section: &str, node_path: &[usize], offset: usize) -> ReadPositionFileData {
    let step = continue_update(
        request(PAGE, node_path, offset),
        "info".to_string(),
        section.to_string(),
        Loaded::Data(data),
    );
    match step {
        UpdateStep::Write { info_path, data } => {
            assert_eq!(info_path, "info");
            data
        }
        _ => panic!("the positions are written"),
    }
}

#[test]
fn a_reported_place_is_given_back() {
    let mut data = ReadPositionFileData::default();
    data.insert("section_002".to_string(), ReadPosition::new_default("section_002".to_string()));
    let data = update(data, "section_001", &[3, 1, 4], 159);
    assert_eq!(data.get("section_001").unwrap().file_name, "section_001");
    let loaded = Loaded::Data(data);
    let (status, place) = finish_get("section_001", &loaded);
    assert_eq!((status, place.node_path, place.offset), (200, vec![3, 1, 4], 159));
    let (status, place) = finish_get("section_002", &loaded);
    assert_eq!((status, place.node_path, place.offset), (200, vec![], 0));
}

#[test]
fn the_last_report_counts() {
    let data = update(ReadPositionFileData::default(), "section_001", &[1], 1);
    let data = update(data, "section_001", &[2], 2);
    assert_eq!(data.read_position.len(), 1);
    let (_, place) = finish_get("section_001", &Loaded::Data(data));
    assert_eq!((place.node_path, place.offset), (vec![2], 2));
}

#[test]
fn a_question_reads_the_positions_first() {
    match begin_get(&query(PAGE)) {
        GetStep::Read { info_path, section } => {
            assert_eq!(info_path, "./html/sci-fi/dune/.info.json");
            assert_eq!(section, "section_001");
        }
        _ => panic!("the positions are read first"),
    }
}

#[test]
fn a_place_that_was_never_kept_is_the_start() {
    match begin_get(&query("/index.html")) {
        GetStep::Reply { status, response } => {
            assert_eq!((status, response.node_path, response.offset), (200, vec![], 0));
        }
        _ => panic!("the address names no section"),
    }
    let empty = Loaded::Data(ReadPositionFileData::default());
    for loaded in [empty, Loaded::Missing, Loaded::Malformed] {
        let (status, place) = finish_get("section_001", &loaded);
        assert_eq!((status, place.node_path, place.offset), (200, vec![], 0));
    }
    let (status, place) = finish_get("section_001", &Loaded::Unreadable);
    assert_eq!((status, place.node_path, place.offset), (500, vec![], 0));
}

#[test]
fn reports_for_two_sections_commute() {
    let data = update(ReadPositionFileData::default(), "section_001", &[1], 1);
    let one = update(data, "section_002", &[2], 2);
    let data = update(ReadPositionFileData::default(), "section_002", &[2], 2);
    let two = update(data, "section_001", &[1], 1);
    for name in ["section_001", "section_002"] {
        assert_eq!(one.get(name).unwrap().node_path, two.get(name).unwrap().node_path);
        assert_eq!(one.get(name).unwrap().offset, two.get(name).unwrap().offset);
    }
}
