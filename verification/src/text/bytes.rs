//! What the bytes of a text tell of its characters: where a byte is a
//! character of its own, the text can be taken apart before and behind it.

use crate::text::chars::{is_sentence_end, is_whitespace};
use vstd::prelude::*;
use vstd::utf8::{
    decode_utf8, decode_utf8_split, is_char_boundary, is_char_boundary_iff_is_leading_byte,
    is_char_boundary_iff_not_is_continuation_byte, is_char_boundary_start_end_of_seq, valid_utf8,
    valid_utf8_split,
};

verus! {

/// The bytes of the whitespace characters that take one byte.
pub open spec fn is_space_byte(byte: u8) -> bool {
    0x09 <= byte <= 0x0D || byte == 0x20
}

/// The bytes of the marks that end a sentence.
pub open spec fn is_mark_byte(byte: u8) -> bool {
    byte == 0x2E || byte == 0x21 || byte == 0x3F
}

/// A byte below 128 is a text of one character, which is the byte.
pub proof fn lemma_one_byte(byte: u8)
    requires
        byte < 0x80,
    ensures
        valid_utf8(seq![byte]),
        decode_utf8(seq![byte]) == seq![byte as char],
{
    let one = seq![byte];
    assert(byte & 0x7f == byte) by (bit_vector)
        requires
            byte < 0x80,
    ;
    assert(one.subrange(1, 1) =~= Seq::<u8>::empty());
    reveal_with_fuel(valid_utf8, 2);
    reveal_with_fuel(decode_utf8, 2);
    assert(valid_utf8(one));
    assert(decode_utf8(one) =~= seq![byte as char]);
}

/// A text whose last byte is below 128 ends with that byte as a character,
/// and what stands before it is a text.
pub proof fn lemma_last_byte(bytes: Seq<u8>)
    requires
        valid_utf8(bytes),
        bytes.len() > 0,
        bytes.last() < 0x80,
    ensures
        valid_utf8(bytes.drop_last()),
        decode_utf8(bytes) == decode_utf8(bytes.drop_last()).push(bytes.last() as char),
{
    let at = bytes.len() - 1;
    is_char_boundary_iff_not_is_continuation_byte(bytes, at);
    valid_utf8_split(bytes, at);
    decode_utf8_split(bytes, at);
    lemma_one_byte(bytes.last());
    assert(bytes.subrange(at, bytes.len() as int) =~= seq![bytes.last()]);
    assert(bytes.subrange(0, at) =~= bytes.drop_last());
    assert(decode_utf8(bytes) =~= decode_utf8(bytes.drop_last()).push(bytes.last() as char));
}

/// A character begins at a byte below 128, and another, or nothing, behind
/// it.
pub proof fn lemma_boundary_behind(bytes: Seq<u8>, at: int)
    requires
        valid_utf8(bytes),
        0 <= at < bytes.len(),
        bytes[at] < 0x80,
    ensures
        is_char_boundary(bytes, at),
        is_char_boundary(bytes, at + 1),
{
    is_char_boundary_iff_not_is_continuation_byte(bytes, at);
    if at + 1 == bytes.len() {
        is_char_boundary_start_end_of_seq(bytes);
    } else {
        valid_utf8_split(bytes, at);
        let tail = bytes.subrange(at, bytes.len() as int);
        assert(tail[0] == bytes[at]);
        let rest = tail.subrange(1, tail.len() as int);
        assert(valid_utf8(rest));
        assert(rest[0] == bytes[at + 1]);
        is_char_boundary_iff_is_leading_byte(bytes, at + 1);
    }
}

/// Whether bytes end with whitespace that no sentence boundary can hold: a
/// run of one-byte whitespace, and before it a one-byte character that is
/// neither whitespace nor a mark that ends a sentence.
pub open spec fn plain_tail(bytes: Seq<u8>) -> bool
    decreases bytes.len(),
{
    if bytes.len() >= 2 && is_space_byte(bytes.last()) {
        if is_space_byte(bytes[bytes.len() - 2]) {
            plain_tail(bytes.drop_last())
        } else {
            bytes[bytes.len() - 2] < 0x80 && !is_mark_byte(bytes[bytes.len() - 2])
        }
    } else {
        false
    }
}

/// Whether the whitespace from position `run` to the end of the text is
/// whitespace that no sentence boundary can hold: there is some, and the
/// character before it is neither whitespace nor a mark that ends a
/// sentence.
pub open spec fn plain_run(text: Seq<char>, run: int) -> bool {
    &&& 0 < run < text.len()
    &&& !is_whitespace(text[run - 1])
    &&& !is_sentence_end(text[run - 1])
    &&& forall|k: int| run <= k < text.len() ==> is_whitespace(#[trigger] text[k])
}

/// Whether a text ends with whitespace that no sentence boundary can hold.
pub open spec fn ends_plainly(text: Seq<char>) -> bool {
    exists|run: int| plain_run(text, run)
}

/// A text whose bytes end with whitespace that no sentence boundary can
/// hold ends with such whitespace.
pub proof fn lemma_plain_tail(bytes: Seq<u8>)
    requires
        valid_utf8(bytes),
        plain_tail(bytes),
    ensures
        ends_plainly(decode_utf8(bytes)),
    decreases bytes.len(),
{
    let text = decode_utf8(bytes);
    let front = bytes.drop_last();
    lemma_last_byte(bytes);
    assert(is_whitespace(bytes.last() as char));
    if is_space_byte(bytes[bytes.len() - 2]) {
        lemma_plain_tail(front);
        let run = choose|run: int| plain_run(decode_utf8(front), run);
        assert(plain_run(text, run)) by {
            assert(forall|k: int| 0 <= k < decode_utf8(front).len() ==> text[k] == decode_utf8(
                front,
            )[k]);
        }
    } else {
        assert(front.last() == bytes[bytes.len() - 2]);
        lemma_last_byte(front);
        let run = text.len() - 1;
        assert(text[run - 1] == front.last() as char);
        assert(plain_run(text, run));
    }
}

} // verus!
