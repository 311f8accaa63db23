//! Telling whether a book has changed since it was converted.

use vstd::prelude::*;

use crate::text::{is_white, same_chars, to_chars, trim, trim_end, trim_start, trimmed};

verus! {

/// The SHA-256 digest of `data`.
pub uninterp spec fn sha256_digest(data: Seq<u8>) -> Seq<u8>;

/// `sha2::Sha256::digest`: a digest that depends on the data alone, 32 bytes
/// long.
#[verifier::external_body]
fn sha256(data: &[u8]) -> (digest: Vec<u8>)
    ensures
        digest@ == sha256_digest(data@),
        digest@.len() == 32,
{
    <sha2::Sha256 as sha2::Digest>::digest(data).to_vec()
}

/// The small hexadecimal digit `d`.
pub open spec fn hex_digit(d: int) -> char {
    if d < 10 {
        (48 + d) as char
    } else {
        (87 + d) as char
    }
}

/// `data` in hexadecimal, two small digits for each byte.
pub open spec fn hex_text(data: Seq<u8>) -> Seq<char>
    decreases data.len(),
{
    if data.len() == 0 {
        seq![]
    } else {
        hex_text(data.drop_last()).push(hex_digit(data.last() as int / 16)).push(
            hex_digit(data.last() as int % 16),
        )
    }
}

/// `hex::encode`: two small hexadecimal digits for each byte.
#[verifier::external_body]
fn hex_encode(data: &Vec<u8>) -> (text: String)
    ensures
        text@ == hex_text(data@),
{
    hex::encode(data)
}

/// What a book is told by: the digest of its file, in hexadecimal.
pub open spec fn fingerprint(data: Seq<u8>) -> Seq<char> {
    hex_text(sha256_digest(data))
}

/// What the book with the contents `data` is told by.
pub fn hash_contents(data: &[u8]) -> (hash: String)
    ensures
        hash@ == fingerprint(data@),
        hash@.len() == 64,
{
    let digest = sha256(data);
    proof {
        lemma_hex_text(digest@);
    }
    hex_encode(&digest)
}

/// Whether a book with the fingerprint `hash` has to be converted, where
/// `stored` is the fingerprint kept when it was converted last.
pub fn needs_conversion(hash: &str, stored: Option<&str>) -> (b: bool)
    ensures
        b == !(stored matches Some(kept) && trimmed(kept@) == hash@),
{
    match stored {
        Some(kept) => {
            let kept = trim(to_chars(kept).as_slice());
            !same_chars(kept.as_slice(), to_chars(hash).as_slice())
        },
        None => true,
    }
}

/// Two digits for each byte, none of them white space.
proof fn lemma_hex_text(data: Seq<u8>)
    ensures
        hex_text(data).len() == 2 * data.len(),
        forall|i: int| 0 <= i < hex_text(data).len() ==> !is_white(#[trigger] hex_text(data)[i]),
    decreases data.len(),
{
    if data.len() > 0 {
        let front = hex_text(data.drop_last());
        lemma_hex_text(data.drop_last());
        let text = hex_text(data);
        let high = data.last() as int / 16;
        let low = data.last() as int % 16;
        assert(0 <= high < 16 && 0 <= low < 16);
        assert(!is_white(hex_digit(high)));
        assert(!is_white(hex_digit(low)));
        assert forall|i: int| 0 <= i < text.len() implies !is_white(#[trigger] text[i]) by {
            if i < front.len() {
                assert(text[i] == front[i]);
            } else if i == front.len() {
                assert(text[i] == hex_digit(high));
            } else {
                assert(text[i] == hex_digit(low));
            }
        }
    }
}

/// A book that has not changed is not converted again: the fingerprint kept for
/// it is found to be the one it has.
pub proof fn law_unchanged_book_is_left(data: Seq<u8>)
    ensures
        trimmed(fingerprint(data)) == fingerprint(data),
{
    let text = fingerprint(data);
    lemma_hex_text(sha256_digest(data));
    if text.len() > 0 {
        assert(!is_white(text[0]));
        assert(!is_white(text[text.len() - 1]));
    }
    assert(trim_start(text) == text);
    assert(trim_end(text) == text);
}

/// The fingerprint of a book is the digest of the whole of its file, byte for byte, in
/// hexadecimal.
pub proof fn law_fingerprint_is_of_the_whole_file(data: Seq<u8>, a: Seq<u8>, b: Seq<u8>)
    ensures
        fingerprint(data) == hex_text(sha256_digest(data)),
        hex_text(a + b) == hex_text(a) + hex_text(b),
        fingerprint(a) != fingerprint(b) ==> a != b,
    decreases b.len(),
{
    if b.len() == 0 {
        assert(a + b == a);
    } else {
        law_fingerprint_is_of_the_whole_file(data, a, b.drop_last());
        assert((a + b).drop_last() == a + b.drop_last());
        assert((a + b).last() == b.last());
    }
}

/// A book is told to be unchanged just when the kept text is its fingerprint, with any
/// white space around it.
pub proof fn law_kept_fingerprint_is_known(before: Seq<char>, data: Seq<u8>, behind: Seq<char>)
    requires
        forall|i: int| 0 <= i < before.len() ==> is_white(#[trigger] before[i]),
        forall|i: int| 0 <= i < behind.len() ==> is_white(#[trigger] behind[i]),
    ensures
        trimmed(before + fingerprint(data) + behind) == fingerprint(data),
{
    let text = fingerprint(data);
    lemma_hex_text(sha256_digest(data));
    if text.len() > 0 {
        assert(!is_white(text[0]));
        assert(!is_white(text[text.len() - 1]));
    }
    crate::text::laws::law_trimming_takes_white_space_off(before, text, behind);
}

} // verus!
