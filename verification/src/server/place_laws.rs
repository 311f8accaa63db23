//! What holds of the addresses of section pages, and of the places that reading
//! positions are kept in.

use vstd::prelude::*;
use vstd::utf8::{
    char_u32_cast, encode_scalar, encode_utf8, encode_utf8_decode_utf8, encode_utf8_valid_utf8,
    last_continuation_byte, leading_byte_width_2, leading_byte_width_3, leading_byte_width_4,
    second_last_continuation_byte, third_last_continuation_byte,
};

use crate::edition::{index_file, Edition, HTML_DIR};
use crate::extractor::scan::{book_dir, lemma_root_dirs};
use crate::extractor::sections::{section_file, section_name};
use crate::path::laws::{
    law_join_components, law_parent_components, law_parent_is_relative, lemma_empty_path,
    lemma_last_component_is_name, lemma_name_alone, lemma_pieces_clean,
    lemma_some_component,
};
use crate::path::{
    climbs, component_seq, counts, here, is_absolute, joined, lead, leads, name_part, parent_path,
    pieces, root, same_path, stem_of, stem_part, up,
};
use crate::server::api_server::{
    info_file, percent_bytes, percent_decoded, section_place, without_slashes,
};
use crate::server::section_view::section_beside;
use crate::text::{begins_with, lemma_after_last_is};
use crate::util::{decimal, zero_padded};

verus! {

/// What is left without the slashes at the front has none there.
proof fn lemma_without_slashes(s: Seq<char>)
    ensures
        !is_absolute(without_slashes(s)),
    decreases s.len(),
{
    if s.len() > 0 && s[0] == '/' {
        lemma_without_slashes(s.drop_first());
    }
}

/// The pieces of a path climb only where the path does.
proof fn lemma_pieces_do_not_climb(p: Seq<char>)
    requires
        !climbs(p),
    ensures
        !pieces(p).contains(up()),
{
    if pieces(p).contains(up()) {
        let i = choose|i: int| 0 <= i < pieces(p).len() && pieces(p)[i] == up();
        assert(component_seq(p)[lead(p).len() + i] == up());
    }
}

/// The file with the reading positions of a directory that does not climb is
/// inside the directory of converted books.
proof fn lemma_info_file(dir: Seq<char>)
    requires
        !is_absolute(dir),
        !climbs(dir),
    ensures
        component_seq(info_file(dir)) == component_seq(HTML_DIR@) + pieces(dir)
            + seq![".info.json"@],
        leads(HTML_DIR@, info_file(dir)),
        !climbs(info_file(dir)),
        name_part(info_file(dir)) == Some(".info.json"@),
{
    lemma_root_dirs();
    reveal_strlit(".info.json");
    reveal_strlit("html");
    let base = component_seq(HTML_DIR@);
    let book = joined(HTML_DIR@, dir);
    let info = info_file(dir);
    law_join_components(HTML_DIR@, dir);
    lemma_name_alone(".info.json"@);
    law_join_components(book, ".info.json"@);
    let all = component_seq(info);
    assert(all == base + pieces(dir) + seq![".info.json"@]);
    assert(all.subrange(0, base.len() as int) == base);
    assert(all.last() == ".info.json"@);
    assert(".info.json"@.len() == 10);
    lemma_last_component_is_name(info);
    lemma_pieces_do_not_climb(dir);
    if all.contains(up()) {
        let i = choose|i: int| 0 <= i < all.len() && all[i] == up();
        if i < base.len() {
            assert(base[i] == up());
            assert(here().len() != up().len());
            assert("html"@.len() != up().len());
        } else if i < base.len() + pieces(dir).len() {
            assert(pieces(dir)[i - base.len()] == up());
        }
    }
}

/// Whatever the address, a place is kept in a file `.info.json` inside the
/// directory of converted books, under the name of a section.
pub proof fn law_places_stay_inside(url_path: Seq<char>)
    ensures
        section_place(url_path) matches Some((info, section)) ==> {
            &&& leads(HTML_DIR@, info)
            &&& !climbs(info)
            &&& name_part(info) == Some(".info.json"@)
            &&& begins_with(section, "section_"@)
        },
{
    if let Some((info, section)) = section_place(url_path) {
        let rel = without_slashes(percent_decoded(url_path)->0);
        lemma_without_slashes(percent_decoded(url_path)->0);
        law_parent_is_relative(rel);
        law_parent_components(rel);
        let dir = parent_path(rel)->0;
        assert(!climbs(dir)) by {
            if component_seq(dir).contains(up()) {
                let i = choose|i: int|
                    0 <= i < component_seq(dir).len() && component_seq(dir)[i] == up();
                assert(component_seq(rel)[i] == up());
            }
        }
        lemma_info_file(dir);
    }
}

/// Bytes without `%` stand for themselves.
proof fn lemma_percent_bytes_plain(bytes: Seq<u8>)
    requires
        !bytes.contains(0x25u8),
    ensures
        percent_bytes(bytes) == bytes,
    decreases bytes.len(),
{
    if bytes.len() > 0 {
        assert(bytes.contains(bytes[0]));
        let rest = bytes.skip(1);
        assert(!rest.contains(0x25u8)) by {
            if rest.contains(0x25u8) {
                let i = choose|i: int| 0 <= i < rest.len() && rest[i] == 0x25u8;
                assert(bytes[i + 1] == 0x25u8);
            }
        }
        lemma_percent_bytes_plain(rest);
        assert(seq![bytes[0]] + rest == bytes);
    }
}

/// No character but `%` has the byte of `%` in its encoding.
proof fn lemma_scalar_without_percent(c: u32)
    requires
        c != 0x25,
    ensures
        !encode_scalar(c).contains(0x25u8),
{
    assert(c <= 0x7f ==> (c & 0x7F) as u8 == c) by (bit_vector);
    assert(0xC0u8 | ((c >> 6) & 0x1F) as u8 >= 0x80u8) by (bit_vector);
    assert(0xE0u8 | ((c >> 12) & 0x0F) as u8 >= 0x80u8) by (bit_vector);
    assert(0xF0u8 | ((c >> 18) & 0x7) as u8 >= 0x80u8) by (bit_vector);
    assert(0x80u8 | (c & 0x3F) as u8 >= 0x80u8) by (bit_vector);
    assert(0x80u8 | ((c >> 6) & 0x3F) as u8 >= 0x80u8) by (bit_vector);
    assert(0x80u8 | ((c >> 12) & 0x3F) as u8 >= 0x80u8) by (bit_vector);
    assert(leading_byte_width_2(c) >= 0x80);
    assert(leading_byte_width_3(c) >= 0x80);
    assert(leading_byte_width_4(c) >= 0x80);
    assert(last_continuation_byte(c) >= 0x80);
    assert(second_last_continuation_byte(c) >= 0x80);
    assert(third_last_continuation_byte(c) >= 0x80);
}

/// A text without `%` has no such byte in its encoding.
proof fn lemma_bytes_without_percent(s: Seq<char>)
    requires
        !s.contains('%'),
    ensures
        !encode_utf8(s).contains(0x25u8),
    decreases s.len(),
{
    if s.len() > 0 {
        let rest = s.drop_first();
        assert(s.contains(s[0]));
        assert(!rest.contains('%')) by {
            if rest.contains('%') {
                let i = choose|i: int| 0 <= i < rest.len() && rest[i] == '%';
                assert(s[i + 1] == '%');
            }
        }
        lemma_bytes_without_percent(rest);
        assert(s[0] as u32 != 0x25) by {
            char_u32_cast(s[0], s[0] as u32);
            assert(0x25u32 as char == '%');
        }
        lemma_scalar_without_percent(s[0] as u32);
        let front = encode_scalar(s[0] as u32);
        let all = encode_utf8(s);
        if all.contains(0x25u8) {
            let i = choose|i: int| 0 <= i < all.len() && all[i] == 0x25u8;
            if i < front.len() {
                assert(front[i] == 0x25u8);
            } else {
                assert(encode_utf8(rest)[i - front.len()] == 0x25u8);
            }
        }
    }
}

/// An address without `%` stands for itself.
pub proof fn law_plain_address_stands_for_itself(path: Seq<char>)
    requires
        !path.contains('%'),
    ensures
        percent_decoded(path) == Some(path),
{
    lemma_bytes_without_percent(path);
    lemma_percent_bytes_plain(encode_utf8(path));
    encode_utf8_valid_utf8(path);
    encode_utf8_decode_utf8(path);
}

/// The digits of a number are digits.
proof fn lemma_digits(n: nat)
    ensures
        forall|i: int| 0 <= i < decimal(n).len() ==> '0' <= #[trigger] decimal(n)[i] <= '9',
    decreases n,
{
    if n >= 10 {
        lemma_digits(n / 10);
        let s = decimal(n);
        assert forall|i: int| 0 <= i < s.len() implies '0' <= #[trigger] s[i] <= '9' by {
            if i < decimal(n / 10).len() {
                assert(s[i] == decimal(n / 10)[i]);
            }
        }
    }
}

proof fn lemma_padded_digits(s: Seq<char>, width: nat)
    requires
        forall|i: int| 0 <= i < s.len() ==> '0' <= #[trigger] s[i] <= '9',
    ensures
        forall|i: int|
            0 <= i < zero_padded(s, width).len() ==> '0' <= #[trigger] zero_padded(s, width)[i]
                <= '9',
    decreases width - s.len(),
{
    if s.len() < width {
        let t = seq!['0'] + s;
        assert forall|i: int| 0 <= i < t.len() implies '0' <= #[trigger] t[i] <= '9' by {
            if i > 0 {
                assert(t[i] == s[i - 1]);
            }
        }
        lemma_padded_digits(t, width);
        assert(zero_padded(s, width) == zero_padded(t, width));
    }
}

/// The file of a section: no slash in its name, and the section's name is its
/// stem.
proof fn lemma_section_file(i: nat)
    ensures
        !section_file(section_name(i)).contains('/'),
        stem_of(section_file(section_name(i))) == section_name(i),
        begins_with(section_name(i), "section_"@),
        section_file(section_name(i)).len() > 8,
{
    reveal_strlit("section_");
    reveal_strlit(".html");
    lemma_digits(i + 1);
    let digits = zero_padded(decimal(i + 1), 3);
    lemma_padded_digits(decimal(i + 1), 3);
    let name = section_name(i);
    let file = section_file(name);
    let prefix = "section_"@;
    assert forall|k: int| 0 <= k < file.len() implies file[k] != '/' by {
        if k < prefix.len() {
            assert(file[k] == prefix[k]);
        } else if k < name.len() {
            assert(file[k] == digits[k - prefix.len()]);
        } else {
            assert(file[k] == ".html"@[k - name.len()]);
        }
    }
    assert(file[name.len() as int] == '.');
    lemma_after_last_is(file, '.', name.len() as int + 1);
    assert(file.take(name.len() as int) == name);
    assert(name.subrange(0, prefix.len() as int) == prefix);
}

/// The address of a section page of the book `book`, however it is encoded, leads
/// to the place that is kept for that section: under the section's own name, in
/// the file `.info.json` in the book's directory.
pub proof fn law_section_page_has_its_place(url_path: Seq<char>, book: Seq<char>, i: nat)
    requires
        !is_absolute(book),
        !climbs(book),
        book.len() > 0,
        percent_decoded(url_path) == Some(
            seq!['/'] + joined(book, section_file(section_name(i))),
        ),
    ensures
        section_place(url_path) matches Some((info, section)) && section == section_name(i)
            && same_path(info, joined(book_dir(book), ".info.json"@)),
{
    let file = section_file(section_name(i));
    let rel = joined(book, file);
    let address = seq!['/'] + rel;
    lemma_section_file(i);
    lemma_some_component(book);
    assert(!is_absolute(file)) by {
        if is_absolute(file) {
            assert(file.contains(file[0]));
        }
    }
    assert(rel[0] == book[0]);
    assert(address.drop_first() == rel);
    assert(without_slashes(rel) == rel);
    assert(without_slashes(address) == rel);
    assert(counts(file)) by {
        assert(file.len() != here().len());
    }
    lemma_name_alone(file);
    law_join_components(book, file);
    let all = component_seq(rel);
    assert(all == component_seq(book) + seq![file]);
    assert(all.last() == file);
    assert(file.len() != up().len());
    assert(file.len() != root().len());
    lemma_last_component_is_name(rel);
    assert(stem_part(rel) == Some(section_name(i)));
    assert(!climbs(rel)) by {
        if all.contains(up()) {
            let k = choose|k: int| 0 <= k < all.len() && all[k] == up();
            if k < component_seq(book).len() {
                assert(component_seq(book)[k] == up());
            }
        }
    }
    law_parent_components(rel);
    law_parent_is_relative(rel);
    let dir = parent_path(rel)->0;
    assert(component_seq(dir) == component_seq(book)) by {
        assert(all.drop_last() == component_seq(book));
    }
    if dir.len() == 0 {
        lemma_empty_path();
        assert(dir == Seq::<char>::empty());
    }
    lemma_same_pieces(dir, book);
    lemma_info_file(dir);
    lemma_info_file(book);
    assert(info_file(book) == joined(book_dir(book), ".info.json"@));
}

/// Two relative paths with the same components have the same pieces.
proof fn lemma_same_pieces(a: Seq<char>, b: Seq<char>)
    requires
        component_seq(a) == component_seq(b),
        !is_absolute(a),
        !is_absolute(b),
    ensures
        pieces(a) == pieces(b),
{
    lemma_pieces_clean(a);
    lemma_pieces_clean(b);
    assert(!counts(here()));
    if lead(a).len() > 0 && lead(b).len() == 0 {
        assert(component_seq(a)[0] == here());
        assert(pieces(b)[0] == here());
    } else if lead(a).len() == 0 && lead(b).len() > 0 {
        assert(component_seq(b)[0] == here());
        assert(pieces(a)[0] == here());
    } else {
        let n = lead(a).len() as int;
        assert(component_seq(a).skip(n) == pieces(a));
        assert(component_seq(b).skip(n) == pieces(b));
    }
}

/// A section page of the book in the directory `dir` is known as one, with the
/// index of its own book.
pub proof fn law_section_page_is_shown_as_one(dir: Seq<char>, i: nat)
    requires
        dir.len() > 0,
    ensures
        section_beside(joined(dir, section_file(section_name(i)))) matches Some((name, index))
            && name == section_file(section_name(i)) && same_path(
            index,
            joined(dir, index_file(Edition::Reader)),
        ),
{
    let file = section_file(section_name(i));
    let page = joined(dir, file);
    lemma_section_file(i);
    reveal_strlit("index.json");
    assert(!is_absolute(file)) by {
        if is_absolute(file) {
            assert(file.contains(file[0]));
        }
    }
    assert(counts(file)) by {
        assert(file.len() != here().len());
    }
    lemma_name_alone(file);
    law_join_components(dir, file);
    let all = component_seq(page);
    assert(all == component_seq(dir) + seq![file]);
    assert(all.last() == file);
    assert(file.len() != up().len());
    assert(file.len() != root().len());
    lemma_last_component_is_name(page);
    law_parent_components(page);
    let parent = parent_path(page)->0;
    assert(all.drop_last() == component_seq(dir));
    assert(file.subrange(0, "section_"@.len() as int) == section_name(i).subrange(
        0,
        "section_"@.len() as int,
    ));
    assert(file.subrange(file.len() - ".html"@.len(), file.len() as int) == ".html"@);
    lemma_some_component(dir);
    if parent.len() == 0 {
        lemma_empty_path();
        assert(parent == Seq::<char>::empty());
    }
    lemma_name_alone("index.json"@);
    law_join_components(dir, "index.json"@);
    law_join_components(parent, "index.json"@);
}

} // verus!
