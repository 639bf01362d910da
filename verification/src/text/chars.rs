//! Characters and strings: the character classes that the tokenizer and the
//! formatter go by, and the passage between strings and character lists.

use vstd::prelude::*;
use vstd::utf8::{decode_utf8, valid_utf8};

verus! {

/// The tokens that a sequence of strings stands for.
pub open spec fn tokens_of(words: Seq<String>) -> Seq<Seq<char>> {
    Seq::new(words.len(), |i: int| words[i]@)
}

/// The characters with the Unicode `White_Space` property.
pub open spec fn is_whitespace(c: char) -> bool {
    let u = c as u32;
    ||| 0x09 <= u <= 0x0D
    ||| u == 0x20
    ||| u == 0x85
    ||| u == 0xA0
    ||| u == 0x1680
    ||| 0x2000 <= u <= 0x200A
    ||| u == 0x2028
    ||| u == 0x2029
    ||| u == 0x202F
    ||| u == 0x205F
    ||| u == 0x3000
}

/// The marks that end a sentence: `.`, `!` and `?`.
pub open spec fn is_sentence_end(c: char) -> bool {
    c == '.' || c == '!' || c == '?'
}

/// The letters `A` to `Z`.
pub open spec fn is_upper_letter(c: char) -> bool {
    'A' <= c <= 'Z'
}

/// The first position at or after `i` that holds no whitespace, or the
/// length of the text if there is none.
pub open spec fn skip_whitespace(text: Seq<char>, i: int) -> int
    decreases text.len() - i,
{
    if 0 <= i < text.len() && is_whitespace(text[i]) {
        skip_whitespace(text, i + 1)
    } else {
        i
    }
}

/// The text without the whitespace at its end.
pub open spec fn trimmed_end(text: Seq<char>) -> Seq<char>
    decreases text.len(),
{
    if text.len() > 0 && is_whitespace(text.last()) {
        trimmed_end(text.drop_last())
    } else {
        text
    }
}

/// The text without the whitespace at its start and at its end.
pub open spec fn trimmed(text: Seq<char>) -> Seq<char> {
    trimmed_end(text.skip(skip_whitespace(text, 0)))
}

/// Skipping whitespace from `i` stops at or before every later position
/// that holds no whitespace.
pub proof fn lemma_skip_whitespace_bound(text: Seq<char>, i: int, j: int)
    requires
        0 <= i <= j < text.len(),
        !is_whitespace(text[j]),
    ensures
        i <= skip_whitespace(text, i) <= j,
    decreases j - i,
{
    if i < j && is_whitespace(text[i]) {
        lemma_skip_whitespace_bound(text, i + 1, j);
    }
}

/// Trimming a text that ends with a character other than whitespace
/// leaves a text that ends with the same character.
pub proof fn lemma_trimmed_keeps_last(text: Seq<char>)
    requires
        text.len() > 0,
        !is_whitespace(text.last()),
    ensures
        trimmed(text).len() > 0,
        trimmed(text).last() == text.last(),
{
    lemma_skip_whitespace_bound(text, 0, text.len() - 1);
}

/// The lower-case form of a text, as `str::to_lowercase` gives it.
pub uninterp spec fn lowercase(text: Seq<char>) -> Seq<char>;

/// The upper-case form of a character, as `char::to_uppercase` gives it:
/// one character or several.
pub uninterp spec fn uppercase(c: char) -> Seq<char>;

/// Tells whether `c` is a whitespace character.
pub fn char_is_whitespace(c: char) -> (r: bool)
    ensures
        r == is_whitespace(c),
{
    let u: u32 = c as u32;
    (0x09 <= u && u <= 0x0D) || u == 0x20 || u == 0x85 || u == 0xA0 || u == 0x1680 || (0x2000 <= u
        && u <= 0x200A) || u == 0x2028 || u == 0x2029 || u == 0x202F || u == 0x205F || u == 0x3000
}

/// Tells whether `c` ends a sentence.
pub fn char_is_sentence_end(c: char) -> (r: bool)
    ensures
        r == is_sentence_end(c),
{
    c == '.' || c == '!' || c == '?'
}

/// Tells whether `c` is one of the letters `A` to `Z`.
pub fn char_is_upper_letter(c: char) -> (r: bool)
    ensures
        r == is_upper_letter(c),
{
    'A' <= c && c <= 'Z'
}

/// The first position at or after `i` that holds no whitespace.
pub fn skip_whitespace_from(text: &Vec<char>, i: usize) -> (next: usize)
    requires
        i <= text@.len(),
    ensures
        next == skip_whitespace(text@, i as int),
        i <= next <= text@.len(),
{
    let mut next = i;
    while next < text.len() && char_is_whitespace(text[next])
        invariant
            i <= next <= text@.len(),
            skip_whitespace(text@, next as int) == skip_whitespace(text@, i as int),
        decreases text.len() - next,
    {
        next += 1;
    }
    next
}

/// The text without the whitespace at its start and at its end.
pub fn trim(text: &Vec<char>) -> (out: Vec<char>)
    ensures
        out@ == trimmed(text@),
{
    let start = skip_whitespace_from(text, 0);
    let mut end = text.len();
    assert(text@.skip(start as int).take(end - start) =~= text@.skip(start as int));
    while end > start && char_is_whitespace(text[end - 1])
        invariant
            start <= end <= text@.len(),
            trimmed_end(text@.skip(start as int).take(end - start)) == trimmed(text@),
        decreases end,
    {
        assert(text@.skip(start as int).take(end - start).drop_last() =~= text@.skip(
            start as int,
        ).take(end - 1 - start));
        end -= 1;
    }
    let mut out: Vec<char> = Vec::new();
    let mut i = start;
    while i < end
        invariant
            start <= i <= end <= text@.len(),
            out@ == text@.subrange(start as int, i as int),
        decreases end - i,
    {
        out.push(text[i]);
        assert(out@ =~= text@.subrange(start as int, i + 1));
        i += 1;
    }
    assert(text@.subrange(start as int, end as int) =~= text@.skip(start as int).take(end - start));
    out
}

/// The characters of `s`, in order.
pub fn chars_of(s: &str) -> (chars: Vec<char>)
    ensures
        chars@ == s@,
{
    let mut chars: Vec<char> = Vec::new();
    for c in it: s.chars()
        invariant
            it.seq() == s@,
            chars@ == s@.take(it.index() as int),
    {
        chars.push(c);
    }
    chars
}

/// `String::push`, which appends the character `c` to the end of `text`.
#[verifier::external_body]
fn push_char(text: &mut String, c: char)
    ensures
        final(text)@ == old(text)@.push(c),
{
    text.push(c)
}

/// The string made of `chars`, in order.
pub fn string_of(chars: &[char]) -> (text: String)
    ensures
        text@ == chars@,
{
    let mut text = String::new();
    let mut i: usize = 0;
    while i < chars.len()
        invariant
            i <= chars@.len(),
            text@ == chars@.take(i as int),
        decreases chars.len() - i,
    {
        push_char(&mut text, chars[i]);
        assert(chars@.take(i + 1) =~= chars@.take(i as int).push(chars@[i as int]));
        i += 1;
    }
    assert(chars@.take(i as int) =~= chars@);
    text
}

/// `str::to_lowercase`, which returns the lower-case equivalent of `text`
/// as a new string. The mapping is Unicode's; the contract names the result
/// and says nothing of what it holds.
#[verifier::external_body]
pub(crate) fn to_lowercase(text: &str) -> (lower: String)
    ensures
        lower@ == lowercase(text@),
{
    text.to_lowercase()
}

/// `char::to_uppercase`, which yields the upper-case equivalent of `c` as
/// one or more characters, collected here in order. The mapping is
/// Unicode's; the contract names the result and says nothing of what it
/// holds.
#[verifier::external_body]
pub(crate) fn to_uppercase(c: char) -> (upper: Vec<char>)
    ensures
        upper@ == uppercase(c),
{
    c.to_uppercase().collect()
}

/// `core::str::from_utf8`, which checks that `bytes` is valid UTF-8 and,
/// if it is, hands the same bytes back as a string slice: its characters
/// are the ones that the bytes encode.
#[verifier::external_body]
pub(crate) fn decode(bytes: &[u8]) -> (text: Option<&str>)
    ensures
        text is Some <==> valid_utf8(bytes@),
        text matches Some(s) ==> s@ == decode_utf8(bytes@),
{
    core::str::from_utf8(bytes).ok()
}

} // verus!
