//! The reading-position endpoints.

use vstd::prelude::*;
use vstd::utf8::{decode_utf8, encode_utf8, valid_utf8};

use crate::edition::HTML_DIR;
use crate::extractor::read_position::{Position, ReadPosition, ReadPositionFileData};
use crate::path::{
    climbs, file_stem, has_parent_dir, join, joined, parent, parent_path, stem_part,
};
use crate::text::{begins_with, slice_copy, starts_with, to_chars, to_text};

verus! {

/// The endpoint that takes reading positions.
pub const UPDATE_READ_POSITION: &'static str = "/updateReadPosition";

/// The endpoint that gives reading positions back.
pub const GET_READ_POSITION: &'static str = "/readPosition";

/// A reader's place, as a page reports it.
pub struct UpdateReadPositionRequest {
    pub path: String,
    pub node_path: Vec<usize>,
    pub offset: usize,
}

/// The answer to an [`UpdateReadPositionRequest`].
pub struct UpdateReadPositionResponse {
    pub success: bool,
}

/// A page's question for the place kept for it.
pub struct GetReadPositionQuery {
    pub path: String,
}

/// The place kept for a page.
pub struct GetReadPositionResponse {
    pub node_path: Vec<usize>,
    pub offset: usize,
}

/// The value of a hexadecimal digit, small or capital.
pub open spec fn hex_value(b: u8) -> Option<int> {
    if 0x30 <= b <= 0x39 {
        Some(b - 0x30)
    } else if 0x41 <= b <= 0x46 {
        Some(b - 0x41 + 10)
    } else if 0x61 <= b <= 0x66 {
        Some(b - 0x61 + 10)
    } else {
        None
    }
}

/// `bytes` with each `%` and the two hexadecimal digits behind it replaced by the
/// byte that they stand for. A `%` without them stays.
pub open spec fn percent_bytes(bytes: Seq<u8>) -> Seq<u8>
    decreases bytes.len(),
{
    if bytes.len() == 0 {
        seq![]
    } else if bytes.len() >= 3 && bytes[0] == 0x25 && hex_value(bytes[1]) is Some && hex_value(
        bytes[2],
    ) is Some {
        seq![(16 * hex_value(bytes[1])->0 + hex_value(bytes[2])->0) as u8] + percent_bytes(
            bytes.skip(3),
        )
    } else {
        seq![bytes[0]] + percent_bytes(bytes.skip(1))
    }
}

/// The text that a percent-encoded text stands for, where it is one.
pub open spec fn percent_decoded(text: Seq<char>) -> Option<Seq<char>> {
    let bytes = percent_bytes(encode_utf8(text));
    if valid_utf8(bytes) {
        Some(decode_utf8(bytes))
    } else {
        None
    }
}

/// `percent_encoding::percent_decode_str` and `decode_utf8` of what it gives:
/// the bytes of the text with the percent-encoded ones replaced, read as UTF-8.
#[verifier::external_body]
fn percent_decode(text: &str) -> (decoded: Option<String>)
    ensures
        match decoded {
            Some(s) => percent_decoded(text@) == Some(s@),
            None => percent_decoded(text@) is None,
        },
{
    match percent_encoding::percent_decode_str(text).decode_utf8() {
        Ok(s) => Some(s.into_owned()),
        Err(_) => None,
    }
}

/// `s` without the slashes at its front.
pub open spec fn without_slashes(s: Seq<char>) -> Seq<char>
    decreases s.len(),
{
    if s.len() > 0 && s[0] == '/' {
        without_slashes(s.drop_first())
    } else {
        s
    }
}

/// `s` without the slashes at its front.
fn skip_slashes(s: &[char]) -> (t: Vec<char>)
    ensures
        t@ == without_slashes(s@),
{
    let mut i: usize = 0;
    assert(s@.skip(0) == s@);
    while i < s.len() && s[i] == '/'
        invariant
            i <= s@.len(),
            without_slashes(s@) == without_slashes(s@.skip(i as int)),
        decreases s@.len() - i,
    {
        assert(s@.skip(i as int).drop_first() == s@.skip(i + 1));
        i = i + 1;
    }
    let t = slice_copy(s, i, s.len());
    assert(t@ == s@.skip(i as int));
    t
}

/// The file with the reading positions of the book in the directory `dir`.
pub open spec fn info_file(dir: Seq<char>) -> Seq<char> {
    joined(joined(HTML_DIR@, dir), ".info.json"@)
}

/// Where the place in the section at the decoded address `path` is kept: the
/// file, and the name in it.
pub open spec fn place_of(path: Seq<char>) -> Option<(Seq<char>, Seq<char>)> {
    let rel = without_slashes(path);
    match (stem_part(rel), parent_path(rel)) {
        (Some(stem), Some(dir)) => if !climbs(rel) && begins_with(stem, "section_"@) && dir.len()
            > 0 {
            Some((info_file(dir), stem))
        } else {
            None
        },
        _ => None,
    }
}

/// Where the place in the section at the address `url_path` is kept.
pub open spec fn section_place(url_path: Seq<char>) -> Option<(Seq<char>, Seq<char>)> {
    match percent_decoded(url_path) {
        Some(path) => place_of(path),
        None => None,
    }
}

/// Where the place in the section at the decoded address `path` is kept.
pub fn locate_place(path: &str) -> (place: Option<(String, String)>)
    ensures
        match place {
            Some((info, section)) => place_of(path@) == Some((info@, section@)),
            None => place_of(path@) is None,
        },
{
    let rel = skip_slashes(to_chars(path).as_slice());
    if has_parent_dir(rel.as_slice()) {
        return None;
    }
    match (file_stem(rel.as_slice()), parent(rel.as_slice())) {
        (Some(stem), Some(dir)) => {
            if !starts_with(stem.as_slice(), "section_") || dir.len() == 0 {
                return None;
            }
            let book = join(to_chars(HTML_DIR).as_slice(), dir.as_slice());
            let info = join(book.as_slice(), to_chars(".info.json").as_slice());
            Some((to_text(info.as_slice()), to_text(stem.as_slice())))
        },
        _ => None,
    }
}

/// Reads an address like `/sci-fi/dune/section_001.html` as the path of the file
/// with the book's reading positions and the name of the section,
/// `section_001`. An address that climbs, that does not name a section, or that
/// is in no directory is refused.
pub fn parse_section_path(url_path: &str) -> (place: Option<(String, String)>)
    ensures
        match place {
            Some((info, section)) => section_place(url_path@) == Some((info@, section@)),
            None => section_place(url_path@) is None,
        },
{
    match percent_decode(url_path) {
        Some(path) => locate_place(path.as_str()),
        None => None,
    }
}

/// What reading the file with a book's reading positions gave.
pub enum Loaded {
    Data(ReadPositionFileData),
    Missing,
    Unreadable,
    Malformed,
}

impl Loaded {
    /// What was read lists no section twice.
    pub open spec fn wf(&self) -> bool {
        self matches Loaded::Data(data) ==> data.wf()
    }
}

/// What to do next about an update.
pub enum UpdateStep {
    Read { info_path: String, section: String },
    Write { info_path: String, data: ReadPositionFileData },
    Reply { status: u16, response: UpdateReadPositionResponse },
}

/// The step is to answer with `status` and `success`.
pub open spec fn replies(step: UpdateStep, status: u16, success: bool) -> bool {
    step matches UpdateStep::Reply { status: s, response } && s == status && response.success
        == success
}

/// What to do first about an update: read the positions of the book, or refuse
/// an address that names no section.
pub fn begin_update(request: &UpdateReadPositionRequest) -> (step: UpdateStep)
    ensures
        match section_place(request.path@) {
            Some((info, name)) => step matches UpdateStep::Read { info_path, section } && info_path@
                == info && section@ == name,
            None => replies(step, 400, false),
        },
{
    match parse_section_path(request.path.as_str()) {
        Some((info_path, section)) => UpdateStep::Read { info_path, section },
        None => UpdateStep::Reply {
            status: 400,
            response: UpdateReadPositionResponse { success: false },
        },
    }
}

/// The positions `data` with the place that a request reports for `section`.
pub open spec fn updated(
    data: Map<Seq<char>, Position>,
    section: Seq<char>,
    node_path: Seq<usize>,
    offset: usize,
) -> Map<Seq<char>, Position> {
    data.insert(section, Position { file_name: section, node_path, offset })
}

/// What to do about an update once the positions have been read: write them
/// back with the new place among them, or answer that they could not be read.
pub fn continue_update(
    request: UpdateReadPositionRequest,
    info_path: String,
    section: String,
    loaded: Loaded,
) -> (step: UpdateStep)
    requires
        loaded.wf(),
    ensures
        match loaded {
            Loaded::Data(before) => step matches UpdateStep::Write { info_path: path, data }
                && path@ == info_path@ && data.wf() && data@ == updated(
                before@,
                section@,
                request.node_path@,
                request.offset,
            ),
            Loaded::Missing => replies(step, 404, false),
            Loaded::Unreadable => replies(step, 500, false),
            Loaded::Malformed => replies(step, 500, false),
        },
{
    let refused = UpdateReadPositionResponse { success: false };
    match loaded {
        Loaded::Data(before) => {
            let mut data = before;
            let position = ReadPosition {
                file_name: section.clone(),
                node_path: request.node_path,
                offset: request.offset,
            };
            data.insert(section, position);
            UpdateStep::Write { info_path, data }
        },
        Loaded::Missing => UpdateStep::Reply { status: 404, response: refused },
        Loaded::Unreadable => UpdateStep::Reply { status: 500, response: refused },
        Loaded::Malformed => UpdateStep::Reply { status: 500, response: refused },
    }
}

/// The answer to an update once the positions have been written, or could not
/// be.
pub fn finish_update(written: bool) -> (reply: (u16, UpdateReadPositionResponse))
    ensures
        reply.0 == (if written {
            200u16
        } else {
            500u16
        }),
        reply.1.success == written,
{
    if written {
        (200, UpdateReadPositionResponse { success: true })
    } else {
        (500, UpdateReadPositionResponse { success: false })
    }
}

/// What to do next about a question for a place.
pub enum GetStep {
    Read { info_path: String, section: String },
    Reply { status: u16, response: GetReadPositionResponse },
}

/// A place that was never kept: the start of the section.
fn start_of_section() -> (response: GetReadPositionResponse)
    ensures
        response.node_path@ == Seq::<usize>::empty(),
        response.offset == 0,
{
    GetReadPositionResponse { node_path: Vec::new(), offset: 0 }
}

/// What to do first about a question for a place: read the positions of the
/// book, or answer an address that names no section with the start.
pub fn begin_get(query: &GetReadPositionQuery) -> (step: GetStep)
    ensures
        match section_place(query.path@) {
            Some((info, name)) => step matches GetStep::Read { info_path, section } && info_path@
                == info && section@ == name,
            None => step matches GetStep::Reply { status, response } && status == 200
                && response.node_path@ == Seq::<usize>::empty() && response.offset == 0,
        },
{
    match parse_section_path(query.path.as_str()) {
        Some((info_path, section)) => GetStep::Read { info_path, section },
        None => GetStep::Reply { status: 200, response: start_of_section() },
    }
}

/// The place that the positions `data` keep for `section`: the start where they
/// keep none.
pub open spec fn kept_place(data: Map<Seq<char>, Position>, section: Seq<char>) -> (
    Seq<usize>,
    usize,
) {
    if data.dom().contains(section) {
        (data[section].node_path, data[section].offset)
    } else {
        (seq![], 0)
    }
}

/// The answer to a question for a place once the positions have been read: the
/// place kept for the section, or the start. Only positions that cannot be read
/// although they are there make the answer a failure.
pub fn finish_get(section: &str, loaded: &Loaded) -> (reply: (u16, GetReadPositionResponse))
    requires
        loaded.wf(),
    ensures
        reply.0 == (if loaded is Unreadable {
            500u16
        } else {
            200u16
        }),
        (reply.1.node_path@, reply.1.offset) == match *loaded {
            Loaded::Data(data) => kept_place(data@, section@),
            _ => (seq![], 0),
        },
{
    match loaded {
        Loaded::Data(data) => match data.get(section) {
            Some(position) => {
                let node_path = position.node_path.clone();
                assert(node_path@ == position.node_path@);
                (200, GetReadPositionResponse { node_path, offset: position.offset })
            },
            None => (200, start_of_section()),
        },
        Loaded::Missing => (200, start_of_section()),
        Loaded::Unreadable => (500, start_of_section()),
        Loaded::Malformed => (200, start_of_section()),
    }
}

/// A place that was reported is the place that is given back, and the places in
/// the other sections stay what they were.
pub proof fn law_place_is_given_back(
    data: Map<Seq<char>, Position>,
    section: Seq<char>,
    node_path: Seq<usize>,
    offset: usize,
    other: Seq<char>,
)
    ensures
        kept_place(updated(data, section, node_path, offset), section) == (node_path, offset),
        other != section ==> kept_place(updated(data, section, node_path, offset), other)
            == kept_place(data, other),
{
}

/// Of two reports for one section the later one counts.
pub proof fn law_last_report_counts(
    data: Map<Seq<char>, Position>,
    section: Seq<char>,
    first: (Seq<usize>, usize),
    second: (Seq<usize>, usize),
)
    ensures
        updated(updated(data, section, first.0, first.1), section, second.0, second.1) == updated(
            data,
            section,
            second.0,
            second.1,
        ),
{
    assert(updated(updated(data, section, first.0, first.1), section, second.0, second.1)
        == updated(data, section, second.0, second.1));
}

/// Reports for different sections do not depend on their order.
pub proof fn law_reports_for_two_sections_commute(
    data: Map<Seq<char>, Position>,
    a: Seq<char>,
    at_a: (Seq<usize>, usize),
    b: Seq<char>,
    at_b: (Seq<usize>, usize),
)
    requires
        a != b,
    ensures
        updated(updated(data, a, at_a.0, at_a.1), b, at_b.0, at_b.1) == updated(
            updated(data, b, at_b.0, at_b.1),
            a,
            at_a.0,
            at_a.1,
        ),
{
    assert(updated(updated(data, a, at_a.0, at_a.1), b, at_b.0, at_b.1) == updated(
        updated(data, b, at_b.0, at_b.1),
        a,
        at_a.0,
        at_a.1,
    ));
}

/// Slashes at the front of an address do not matter, and nothing else is taken off.
pub proof fn law_slashes_at_the_front(s: Seq<char>)
    ensures
        without_slashes(seq!['/'] + s) == without_slashes(s),
        s.len() == 0 || s[0] != '/' ==> without_slashes(s) == s,
{
    assert((seq!['/'] + s).drop_first() == s);
}

/// The place of a section is kept under the stem of its file, in the file `.info.json` in
/// its directory, whatever the section and its directory are called.
pub proof fn law_place_of_a_section(dir: Seq<char>, number: Seq<char>, ext: Seq<char>)
    requires
        dir.len() > 0,
        dir[0] != '/',
        dir.last() != '/',
        dir.len() > 1 && dir.last() == '.' ==> dir[dir.len() - 2] != '/',
        !climbs(dir),
        !number.contains('/'),
        !ext.contains('/'),
        !ext.contains('.'),
    ensures
        place_of(seq!['/'] + dir + seq!['/'] + ("section_"@ + number + seq!['.'] + ext)) == Some(
            (
                seq!['.', '/', 'h', 't', 'm', 'l', '/'] + dir + seq!['/'] + ".info.json"@,
                "section_"@ + number,
            ),
        ),
{
    reveal_strlit("section_");
    reveal_strlit("./html");
    reveal_strlit(".info.json");
    let stem = "section_"@ + number;
    let name = stem + seq!['.'] + ext;
    let rel = dir + seq!['/'] + name;
    assert("section_"@ + number + seq!['.'] + ext == name);
    let address = seq!['/'] + dir + seq!['/'] + name;
    assert(address == seq!['/'] + rel);
    law_slashes_at_the_front(rel);
    assert(without_slashes(rel) == rel);
    assert(crate::path::laws::is_name(stem)) by {
        assert(stem.len() >= 8);
        if stem.contains('/') {
            let i = choose|i: int| 0 <= i < stem.len() && stem[i] == '/';
            if i < 8 {
                assert("section_"@[i] == '/');
            } else {
                assert(number[i - 8] == '/');
            }
        }
    }
    assert(crate::path::laws::is_name(name)) by {
        assert(name.len() > 8);
        if name.contains('/') {
            let i = choose|i: int| 0 <= i < name.len() && name[i] == '/';
            if i < stem.len() {
                assert(stem[i] == '/');
            } else if i > stem.len() {
                assert(ext[i - stem.len() - 1] == '/');
            }
        }
    }
    assert(name != seq!['.', '.']) by {
        assert(name.len() > 8);
    }
    crate::path::laws::law_file_in_a_directory(dir, name);
    crate::path::laws::law_extension_is_taken_off(dir, stem, ext);
    crate::path::laws::law_climbing_parts(dir, name);
    crate::path::laws::law_climbing_parts(name, name);
    assert(!climbs(rel));
    assert(stem.subrange(0, "section_"@.len() as int) == "section_"@);
    let book = joined(HTML_DIR@, dir);
    assert(book == seq!['.', '/', 'h', 't', 'm', 'l', '/'] + dir);
    assert(book.last() == dir.last());
    assert(info_file(dir) == book + seq!['/'] + ".info.json"@);
}

/// An address has a place just when it does not climb, its file is named like a section,
/// and it is in a directory.
pub proof fn law_addresses_with_a_place(path: Seq<char>)
    ensures
        ({
            let rel = without_slashes(path);
            let named = stem_part(rel) matches Some(stem) && begins_with(stem, "section_"@);
            let housed = parent_path(rel) matches Some(dir) && dir.len() > 0;
            &&& place_of(path) is Some <==> !climbs(rel) && named && housed
            &&& place_of(path) is Some ==> place_of(path) == Some(
                (
                    joined(joined(HTML_DIR@, parent_path(rel)->0), ".info.json"@),
                    stem_part(rel)->0,
                ),
            )
        }),
{
}

/// An address stands for what it is decoded to, and has no place where it cannot be
/// decoded.
pub proof fn law_address_stands_for_its_decoded_form(url_path: Seq<char>)
    ensures
        percent_decoded(url_path) matches Some(path) ==> section_place(url_path) == place_of(path),
        percent_decoded(url_path) is None ==> section_place(url_path) is None,
{
}

/// A report puts its place under the name of its section and changes no other name.
pub proof fn law_report_is_kept(
    data: Map<Seq<char>, Position>,
    section: Seq<char>,
    node_path: Seq<usize>,
    offset: usize,
    other: Seq<char>,
)
    ensures
        ({
            let after = updated(data, section, node_path, offset);
            &&& after.dom() == data.dom().insert(section)
            &&& after[section].file_name == section
            &&& after[section].node_path == node_path
            &&& after[section].offset == offset
            &&& other != section && data.dom().contains(other) ==> after[other] == data[other]
        }),
{
    assert(updated(data, section, node_path, offset).dom() == data.dom().insert(section));
}

/// The place that is given back is the one that is kept, and the start where none is.
pub proof fn law_kept_place_is_given_back(data: Map<Seq<char>, Position>, section: Seq<char>)
    ensures
        data.dom().contains(section) ==> kept_place(data, section) == (
            data[section].node_path,
            data[section].offset,
        ),
        !data.dom().contains(section) ==> kept_place(data, section).0.len() == 0 && kept_place(
            data,
            section,
        ).1 == 0,
{
}

/// What it is to answer an update.
pub proof fn law_reply_to_an_update(step: UpdateStep, status: u16, success: bool)
    ensures
        replies(step, status, success) <==> match step {
            UpdateStep::Reply { status: s, response } => s == status && response.success == success,
            _ => false,
        },
{
}

} // verus!
