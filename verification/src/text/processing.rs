//! Normalization and tokenization.
//!
//! Tokenizing goes in three steps. The text is first rewritten so that
//! every separator is a space: a sentence boundary (a mark that ends a
//! sentence, whitespace, an upper-case letter) keeps its mark on the word
//! before it and may insert the sentence marker; any other punctuation mark
//! is set apart or dropped; whitespace becomes a space. The rewritten text
//! is then cut into words at the spaces, and the words are lower-cased
//! where that is asked for.
//!
//! A large text is tokenized chunk by chunk. The chunks end where no word
//! and no sentence boundary is cut in two, as far as the text allows it,
//! and the tokens are then proved to be those of the text as a whole.

use crate::error::TextGenError;
use crate::text::bytes::{
    ends_plainly, is_mark_byte, is_space_byte, lemma_boundary_behind, lemma_plain_tail, plain_run,
    plain_tail,
};
use crate::text::chars::{
    char_is_sentence_end, char_is_upper_letter, char_is_whitespace, chars_of, decode,
    is_sentence_end, is_upper_letter, is_whitespace, lowercase, skip_whitespace,
    skip_whitespace_from, string_of, to_lowercase, tokens_of,
};
use vstd::prelude::*;
use vstd::slice::slice_subrange;
use vstd::string::StringSliceAdditionalSpecFns;
use vstd::utf8::{
    decode_utf8, decode_utf8_split, encode_utf8, encode_utf8_decode_utf8, encode_utf8_valid_utf8,
    is_char_boundary, is_char_boundary_start_end_of_seq, valid_utf8, valid_utf8_split,
};

verus! {

/// How a text is tokenized: three switches that do not depend on each
/// other.
#[derive(Clone, Copy, Debug, PartialEq, Eq, Structural)]
pub struct TokenizerOptions {
    /// Whether every token is turned to lower case.
    pub lowercase: bool,
    /// Whether punctuation marks are kept, each as a token of its own.
    pub preserve_punctuation: bool,
    /// Whether a sentence boundary leaves the sentence marker as a token.
    pub preserve_sentence_boundaries: bool,
}

impl Default for TokenizerOptions {
    /// All three switches on.
    fn default() -> (options: Self)
        ensures
            options.lowercase,
            options.preserve_punctuation,
            options.preserve_sentence_boundaries,
    {
        TokenizerOptions {
            lowercase: true,
            preserve_punctuation: true,
            preserve_sentence_boundaries: true,
        }
    }
}

/// The punctuation marks that the tokenizer sets apart.
pub open spec fn is_punctuation(c: char) -> bool {
    ||| c == '.'
    ||| c == ','
    ||| c == '!'
    ||| c == '?'
    ||| c == ';'
    ||| c == ':'
    ||| c == '('
    ||| c == ')'
    ||| c == '['
    ||| c == ']'
    ||| c == '{'
    ||| c == '}'
    ||| c == '"'
    ||| c == '\''
    ||| c == '-'
}

/// The token that marks a sentence boundary: `<SENTENCE>`.
pub open spec fn sentence_marker() -> Seq<char> {
    seq!['<', 'S', 'E', 'N', 'T', 'E', 'N', 'C', 'E', '>']
}

/// Whether a sentence boundary starts at `i`: a mark that ends a sentence,
/// then whitespace, then an upper-case letter.
pub open spec fn boundary_at(text: Seq<char>, i: int) -> bool {
    let next = skip_whitespace(text, i + 1);
    &&& 0 <= i < text.len()
    &&& is_sentence_end(text[i])
    &&& i + 1 < next < text.len()
    &&& is_upper_letter(text[next])
}

/// What a sentence boundary with mark `mark` and letter `letter` is
/// rewritten to: the mark, a space, the sentence marker and a space if
/// boundaries are preserved, the letter.
pub open spec fn boundary_text(mark: char, letter: char, options: TokenizerOptions) -> Seq<char> {
    if options.preserve_sentence_boundaries {
        (seq![mark, ' '] + sentence_marker()).push(' ').push(letter)
    } else {
        seq![mark, ' ', letter]
    }
}

/// What a punctuation mark outside a sentence boundary is rewritten to: the
/// mark between two spaces if punctuation is preserved, a space if not.
pub open spec fn punctuation_text(mark: char, options: TokenizerOptions) -> Seq<char> {
    if options.preserve_punctuation {
        seq![' ', mark, ' ']
    } else {
        seq![' ']
    }
}

/// The text from position `i` on, rewritten so that every separator is a
/// space. At each position the first of these applies: a sentence boundary,
/// a punctuation mark, whitespace, any other character (which stays).
pub open spec fn spaced(text: Seq<char>, options: TokenizerOptions, i: int) -> Seq<char>
    decreases text.len() - i,
{
    if i < 0 || i >= text.len() {
        Seq::empty()
    } else if boundary_at(text, i) {
        let next = skip_whitespace(text, i + 1);
        boundary_text(text[i], text[next], options) + spaced(text, options, next + 1)
    } else if is_punctuation(text[i]) {
        punctuation_text(text[i], options) + spaced(text, options, i + 1)
    } else if is_whitespace(text[i]) {
        seq![' '] + spaced(text, options, i + 1)
    } else {
        seq![text[i]] + spaced(text, options, i + 1)
    }
}

/// `word`, if it is not empty, as a list of one word.
pub open spec fn word_list(word: Seq<char>) -> Seq<Seq<char>> {
    if word.len() > 0 {
        seq![word]
    } else {
        Seq::empty()
    }
}

/// The words of the text from position `i` on, where `word` holds the
/// characters of the word that is open at `i`. Whitespace closes a word.
pub open spec fn words_from(text: Seq<char>, i: int, word: Seq<char>) -> Seq<Seq<char>>
    decreases text.len() - i,
{
    if i < 0 || i >= text.len() {
        word_list(word)
    } else if is_whitespace(text[i]) {
        word_list(word) + words_from(text, i + 1, Seq::empty())
    } else {
        words_from(text, i + 1, word.push(text[i]))
    }
}

/// The words of a text: its runs of characters other than whitespace, as
/// long as they can be, in order.
pub open spec fn words(text: Seq<char>) -> Seq<Seq<char>> {
    words_from(text, 0, Seq::empty())
}

/// Whether a word is a proper word: not empty, and without whitespace.
pub open spec fn is_word(word: Seq<char>) -> bool {
    word.len() > 0 && forall|k: int| 0 <= k < word.len() ==> !is_whitespace(#[trigger] word[k])
}

/// The words from a position on are proper words, if the open word has no
/// whitespace.
pub proof fn lemma_words_from(text: Seq<char>, i: int, word: Seq<char>)
    requires
        0 <= i,
        forall|k: int| 0 <= k < word.len() ==> !is_whitespace(#[trigger] word[k]),
    ensures
        forall|j: int|
            0 <= j < words_from(text, i, word).len() ==> is_word(
                #[trigger] words_from(text, i, word)[j],
            ),
    decreases text.len() - i,
{
    let found = words_from(text, i, word);
    if i < text.len() {
        if is_whitespace(text[i]) {
            let rest = words_from(text, i + 1, Seq::empty());
            lemma_words_from(text, i + 1, Seq::empty());
            assert forall|j: int| 0 <= j < found.len() implies is_word(#[trigger] found[j]) by {
                if j < word_list(word).len() {
                    assert(found[j] == word);
                } else {
                    assert(found[j] == rest[j - word_list(word).len()]);
                }
            }
        } else {
            let longer = words_from(text, i + 1, word.push(text[i]));
            lemma_words_from(text, i + 1, word.push(text[i]));
            assert(found == longer);
            assert forall|j: int| 0 <= j < found.len() implies is_word(#[trigger] found[j]) by {
                assert(is_word(longer[j]));
            }
        }
    } else {
        assert forall|j: int| 0 <= j < found.len() implies is_word(#[trigger] found[j]) by {
            assert(found[j] == word);
        }
    }
}

/// Every word of a text is a proper word: cutting never yields an empty
/// token or one with whitespace in it.
pub proof fn lemma_words_are_proper(text: Seq<char>)
    ensures
        forall|j: int| 0 <= j < words(text).len() ==> is_word(#[trigger] words(text)[j]),
{
    lemma_words_from(text, 0, Seq::empty());
}

/// The words as they are or, if `lower` is set, each in lower case.
pub open spec fn fold_case(words: Seq<Seq<char>>, lower: bool) -> Seq<Seq<char>> {
    if lower {
        Seq::new(words.len(), |i: int| lowercase(words[i]))
    } else {
        words
    }
}

/// The tokens of a text under the given options.
pub open spec fn tokens_of_text(text: Seq<char>, options: TokenizerOptions) -> Seq<Seq<char>> {
    fold_case(words(spaced(text, options, 0)), options.lowercase)
}

/// Tells whether `c` is a punctuation mark that the tokenizer sets apart.
pub fn char_is_punctuation(c: char) -> (r: bool)
    ensures
        r == is_punctuation(c),
{
    c == '.' || c == ',' || c == '!' || c == '?' || c == ';' || c == ':' || c == '(' || c == ')'
        || c == '[' || c == ']' || c == '{' || c == '}' || c == '"' || c == '\'' || c == '-'
}

/// Appends the sentence marker to `out`.
fn push_marker(out: &mut Vec<char>)
    ensures
        final(out)@ == old(out)@ + sentence_marker(),
{
    out.push('<');
    out.push('S');
    out.push('E');
    out.push('N');
    out.push('T');
    out.push('E');
    out.push('N');
    out.push('C');
    out.push('E');
    out.push('>');
    assert(out@ =~= old(out)@ + sentence_marker());
}

/// The text rewritten so that every separator is a space.
fn add_separators(text: &Vec<char>, options: &TokenizerOptions) -> (out: Vec<char>)
    ensures
        out@ == spaced(text@, *options, 0),
{
    let mut out: Vec<char> = Vec::new();
    let mut i: usize = 0;
    assert(out@ + spaced(text@, *options, 0) =~= spaced(text@, *options, 0));
    while i < text.len()
        invariant
            i <= text@.len(),
            out@ + spaced(text@, *options, i as int) == spaced(text@, *options, 0),
        decreases text.len() - i,
    {
        let c = text[i];
        let ghost before = out@;
        let next = if char_is_sentence_end(c) {
            skip_whitespace_from(text, i + 1)
        } else {
            i + 1
        };
        if char_is_sentence_end(c) && i + 1 < next && next < text.len() && char_is_upper_letter(
            text[next],
        ) {
            out.push(c);
            out.push(' ');
            if options.preserve_sentence_boundaries {
                push_marker(&mut out);
                out.push(' ');
            }
            out.push(text[next]);
            assert(out@ =~= before + boundary_text(c, text@[next as int], *options));
            assert(out@ + spaced(text@, *options, next + 1) =~= before + spaced(
                text@,
                *options,
                i as int,
            ));
            i = next + 1;
        } else if char_is_punctuation(c) {
            if options.preserve_punctuation {
                out.push(' ');
                out.push(c);
            }
            out.push(' ');
            assert(out@ =~= before + punctuation_text(c, *options));
            assert(out@ + spaced(text@, *options, i + 1) =~= before + spaced(
                text@,
                *options,
                i as int,
            ));
            i += 1;
        } else if char_is_whitespace(c) {
            out.push(' ');
            assert(out@ + spaced(text@, *options, i + 1) =~= before + spaced(
                text@,
                *options,
                i as int,
            ));
            i += 1;
        } else {
            out.push(c);
            assert(out@ + spaced(text@, *options, i + 1) =~= before + spaced(
                text@,
                *options,
                i as int,
            ));
            i += 1;
        }
    }
    assert(out@ + spaced(text@, *options, i as int) =~= out@);
    out
}

/// The words that a list of character lists stands for.
pub open spec fn words_view(list: Seq<Vec<char>>) -> Seq<Seq<char>> {
    Seq::new(list.len(), |i: int| list[i]@)
}

/// The words of a text.
fn split_words(text: &Vec<char>) -> (list: Vec<Vec<char>>)
    ensures
        words_view(list@) == words(text@),
{
    let mut list: Vec<Vec<char>> = Vec::new();
    let mut word: Vec<char> = Vec::new();
    let mut i: usize = 0;
    assert(words_view(list@) + words_from(text@, 0, word@) =~= words(text@));
    while i < text.len()
        invariant
            i <= text@.len(),
            words_view(list@) + words_from(text@, i as int, word@) == words(text@),
        decreases text.len() - i,
    {
        let c = text[i];
        let ghost closed = words_view(list@);
        let ghost open = word@;
        if char_is_whitespace(c) {
            let ghost rest = words_from(text@, i + 1, Seq::empty());
            assert(words_from(text@, i as int, open) == word_list(open) + rest);
            if word.len() > 0 {
                list.push(word);
                word = Vec::new();
                assert(words_view(list@) =~= closed + word_list(open));
            } else {
                assert(closed + word_list(open) =~= closed);
            }
            assert(word@ =~= Seq::<char>::empty());
            assert(words_view(list@) + rest =~= closed + (word_list(open) + rest));
        } else {
            word.push(c);
        }
        i += 1;
    }
    if word.len() > 0 {
        let ghost closed = words_view(list@);
        let ghost open = word@;
        list.push(word);
        assert(words_view(list@) =~= closed + word_list(open));
    } else {
        assert(words_view(list@) + word_list(word@) =~= words_view(list@));
    }
    list
}

/// The words of `text`: its runs of characters other than whitespace, in
/// order. This is how a seed given as one text is cut into tokens.
pub fn split_whitespace(text: &str) -> (list: Vec<String>)
    ensures
        tokens_of(list@) == words(text@),
{
    let chars = chars_of(text);
    let found = split_words(&chars);
    let mut list: Vec<String> = Vec::new();
    let mut i: usize = 0;
    while i < found.len()
        invariant
            i <= found@.len(),
            list@.len() == i,
            forall|j: int| 0 <= j < i ==> (#[trigger] list@[j])@ == found@[j]@,
        decreases found.len() - i,
    {
        list.push(string_of(found[i].as_slice()));
        i += 1;
    }
    assert(tokens_of(list@) =~= words_view(found@));
    list
}

/// Splits `text` into tokens.
///
/// A sentence boundary is a mark that ends a sentence (`.`, `!`, `?`),
/// followed by whitespace and one of the letters `A` to `Z`. Its mark stays
/// on the word before it and the letter starts the next word; between the
/// two stands the token `<SENTENCE>` if sentence boundaries are preserved.
/// Any other punctuation mark (one of `.,!?;:()[]{}"'-`) is a token of its
/// own if punctuation is preserved, and only separates words if not.
/// Whitespace separates words. With `lowercase` set every token, the
/// sentence marker too, is turned to lower case.
pub fn tokenize(text: &str, options: &TokenizerOptions) -> (tokens: Vec<String>)
    ensures
        tokens_of(tokens@) == tokens_of_text(text@, *options),
{
    let chars = chars_of(text);
    let rewritten = add_separators(&chars, options);
    let list = split_words(&rewritten);
    let ghost raw = words(spaced(text@, *options, 0));
    let mut tokens: Vec<String> = Vec::new();
    let mut i: usize = 0;
    while i < list.len()
        invariant
            i <= list@.len(),
            words_view(list@) == raw,
            tokens@.len() == i,
            forall|j: int|
                0 <= j < i ==> (#[trigger] tokens@[j])@ == fold_case(raw, options.lowercase)[j],
        decreases list.len() - i,
    {
        let word = string_of(list[i].as_slice());
        assert(word@ == raw[i as int]);
        if options.lowercase {
            tokens.push(to_lowercase(word.as_str()));
        } else {
            tokens.push(word);
        }
        i += 1;
    }
    assert(tokens_of(tokens@) =~= fold_case(raw, options.lowercase));
    tokens
}

/// The text from position `i` on with every run of whitespace made one
/// space, where `after_space` tells that the character before `i` was
/// whitespace. Other characters stay as they are.
pub open spec fn collapsed(text: Seq<char>, i: int, after_space: bool) -> Seq<char>
    decreases text.len() - i,
{
    if i < 0 || i >= text.len() {
        Seq::empty()
    } else if is_whitespace(text[i]) {
        if after_space {
            collapsed(text, i + 1, true)
        } else {
            seq![' '] + collapsed(text, i + 1, true)
        }
    } else {
        seq![text[i]] + collapsed(text, i + 1, false)
    }
}

/// The text without a space at its start and without a space at its end.
pub open spec fn trimmed_of_space(text: Seq<char>) -> Seq<char> {
    let tail = if text.len() > 0 && text[0] == ' ' {
        text.drop_first()
    } else {
        text
    };
    if tail.len() > 0 && tail.last() == ' ' {
        tail.drop_last()
    } else {
        tail
    }
}

/// The normal form of a text: every run of whitespace is one space, and no
/// space stands at the start or at the end.
pub open spec fn normalized(text: Seq<char>) -> Seq<char> {
    trimmed_of_space(collapsed(text, 0, false))
}

/// Whether a text is in normal form: whitespace occurs in it only as a
/// single space between two characters that are no whitespace.
pub open spec fn is_normal(text: Seq<char>) -> bool {
    forall|i: int|
        0 <= i < text.len() && is_whitespace(#[trigger] text[i]) ==> {
            &&& text[i] == ' '
            &&& 0 < i
            &&& i + 1 < text.len()
            &&& !is_whitespace(text[i - 1])
            &&& !is_whitespace(text[i + 1])
        }
}

/// The characters of a text that are no whitespace, in order.
pub open spec fn letters(text: Seq<char>) -> Seq<char> {
    text.filter(|c: char| !is_whitespace(c))
}

/// In collapsed text every whitespace character is a space, no whitespace
/// follows a space, and no space stands at the start after whitespace.
pub proof fn lemma_collapsed_spaces(text: Seq<char>, i: int, after_space: bool)
    requires
        0 <= i,
    ensures
        forall|k: int|
            0 <= k < collapsed(text, i, after_space).len() && is_whitespace(
                #[trigger] collapsed(text, i, after_space)[k],
            ) ==> collapsed(text, i, after_space)[k] == ' ' && (k + 1 < collapsed(
                text,
                i,
                after_space,
            ).len() ==> !is_whitespace(collapsed(text, i, after_space)[k + 1])),
        after_space && collapsed(text, i, after_space).len() > 0 ==> !is_whitespace(
            collapsed(text, i, after_space)[0],
        ),
    decreases text.len() - i,
{
    let whole = collapsed(text, i, after_space);
    if i < text.len() {
        if is_whitespace(text[i]) {
            let rest = collapsed(text, i + 1, true);
            lemma_collapsed_spaces(text, i + 1, true);
            if !after_space {
                assert(whole == seq![' '] + rest);
                assert forall|k: int|
                    0 <= k < whole.len() && is_whitespace(#[trigger] whole[k]) implies whole[k]
                    == ' ' && (k + 1 < whole.len() ==> !is_whitespace(whole[k + 1])) by {
                    if k > 0 {
                        assert(whole[k] == rest[k - 1]);
                        if k + 1 < whole.len() {
                            assert(whole[k + 1] == rest[k]);
                        }
                    } else if k + 1 < whole.len() {
                        assert(whole[k + 1] == rest[0]);
                    }
                }
            }
        } else {
            let rest = collapsed(text, i + 1, false);
            lemma_collapsed_spaces(text, i + 1, false);
            assert(whole == seq![text[i]] + rest);
            assert forall|k: int|
                0 <= k < whole.len() && is_whitespace(#[trigger] whole[k]) implies whole[k] == ' '
                && (k + 1 < whole.len() ==> !is_whitespace(whole[k + 1])) by {
                if k > 0 {
                    assert(whole[k] == rest[k - 1]);
                    if k + 1 < whole.len() {
                        assert(whole[k + 1] == rest[k]);
                    }
                }
            }
        }
    }
}

/// Normalizing brings every text to normal form.
pub proof fn lemma_normalized_is_normal(text: Seq<char>)
    ensures
        is_normal(normalized(text)),
{
    let whole = collapsed(text, 0, false);
    lemma_collapsed_spaces(text, 0, false);
    let tail = if whole.len() > 0 && whole[0] == ' ' {
        whole.drop_first()
    } else {
        whole
    };
    let shift: int = if whole.len() > 0 && whole[0] == ' ' {
        1
    } else {
        0
    };
    let result = normalized(text);
    assert(forall|k: int| 0 <= k < tail.len() ==> tail[k] == whole[k + shift]);
    assert forall|k: int| 0 <= k < result.len() && is_whitespace(#[trigger] result[k]) implies {
        &&& result[k] == ' '
        &&& 0 < k
        &&& k + 1 < result.len()
        &&& !is_whitespace(result[k - 1])
        &&& !is_whitespace(result[k + 1])
    } by {
        assert(result[k] == whole[k + shift]);
        assert(is_whitespace(whole[k + shift]));
        if k == 0 {
            if shift == 1 {
                assert(is_whitespace(whole[0]));
            }
        } else {
            assert(result[k - 1] == whole[k - 1 + shift]);
            if is_whitespace(whole[k - 1 + shift]) {
                assert(!is_whitespace(whole[k + shift]));
            }
        }
        if k + 1 < result.len() {
            assert(result[k + 1] == whole[k + 1 + shift]);
        } else {
            assert(tail.last() == whole[k + shift]);
        }
    }
}

/// Filtering a text with one more character in front.
proof fn lemma_letters_prepend(c: char, rest: Seq<char>)
    ensures
        letters(seq![c] + rest) == if is_whitespace(c) {
            letters(rest)
        } else {
            seq![c] + letters(rest)
        },
{
    let pred = |c: char| !is_whitespace(c);
    Seq::filter_distributes_over_add(seq![c], rest, pred);
    reveal_with_fuel(Seq::filter, 2);
    assert(seq![c].drop_last() =~= Seq::<char>::empty());
    assert(seq![c].filter(pred) =~= if is_whitespace(c) {
        Seq::<char>::empty()
    } else {
        seq![c]
    });
    if is_whitespace(c) {
        assert(Seq::<char>::empty() + letters(rest) =~= letters(rest));
    }
}

/// Collapsing changes whitespace only: the other characters of the text
/// from `i` on are those of the collapsed text, in order.
pub proof fn lemma_collapsed_letters(text: Seq<char>, i: int, after_space: bool)
    requires
        0 <= i <= text.len(),
    ensures
        letters(collapsed(text, i, after_space)) == letters(text.skip(i)),
    decreases text.len() - i,
{
    if i < text.len() {
        assert(text.skip(i) =~= seq![text[i]] + text.skip(i + 1));
        lemma_letters_prepend(text[i], text.skip(i + 1));
        if is_whitespace(text[i]) {
            lemma_collapsed_letters(text, i + 1, true);
            if !after_space {
                lemma_letters_prepend(' ', collapsed(text, i + 1, true));
            }
        } else {
            lemma_collapsed_letters(text, i + 1, false);
            lemma_letters_prepend(text[i], collapsed(text, i + 1, false));
        }
    } else {
        assert(text.skip(i) =~= Seq::<char>::empty());
    }
}

/// Normalizing changes whitespace only: the characters that are no
/// whitespace pass through unchanged and in order.
pub proof fn lemma_normalized_keeps_letters(text: Seq<char>)
    ensures
        letters(normalized(text)) == letters(text),
{
    let pred = |c: char| !is_whitespace(c);
    let whole = collapsed(text, 0, false);
    lemma_collapsed_letters(text, 0, false);
    assert(text.skip(0) =~= text);
    let tail = if whole.len() > 0 && whole[0] == ' ' {
        whole.drop_first()
    } else {
        whole
    };
    if whole.len() > 0 && whole[0] == ' ' {
        assert(whole =~= seq![' '] + tail);
        lemma_letters_prepend(' ', tail);
    }
    if tail.len() > 0 && tail.last() == ' ' {
        assert(tail =~= tail.drop_last().push(' '));
        tail.drop_last().lemma_filter_push(' ', pred);
    }
}

/// Brings `text` to its normal form: every run of whitespace characters
/// becomes one space, and whitespace at the start and at the end goes.
/// Every other character stays as it is, in its case.
pub fn normalize_text(text: &str) -> (result: String)
    ensures
        result@ == normalized(text@),
        is_normal(result@),
        letters(result@) == letters(text@),
{
    proof {
        lemma_normalized_is_normal(text@);
        lemma_normalized_keeps_letters(text@);
    }
    let mut out: Vec<char> = Vec::new();
    let mut last_was_whitespace = false;
    assert(out@ + collapsed(text@, 0, false) =~= collapsed(text@, 0, false));
    for c in it: text.chars()
        invariant
            it.seq() == text@,
            out@ + collapsed(text@, it.index() as int, last_was_whitespace) == collapsed(
                text@,
                0,
                false,
            ),
    {
        let ghost i = it.index() as int;
        let ghost before = out@;
        let ghost was = last_was_whitespace;
        if char_is_whitespace(c) {
            if !last_was_whitespace {
                out.push(' ');
                last_was_whitespace = true;
            }
        } else {
            out.push(c);
            last_was_whitespace = false;
        }
        assert(out@ + collapsed(text@, i + 1, last_was_whitespace) =~= before + collapsed(
            text@,
            i,
            was,
        ));
    }
    assert(out@ + collapsed(text@, text@.len() as int, last_was_whitespace) =~= out@);
    if out.len() > 0 && out[0] == ' ' {
        let _ = out.remove(0);
    }
    if out.len() > 0 && out[out.len() - 1] == ' ' {
        let _ = out.pop();
    }
    assert(out@ =~= normalized(text@));
    string_of(out.as_slice())
}

/// The size in bytes above which a text is tokenized in chunks.
pub const LARGE_TEXT_THRESHOLD: usize = 1_000_000;

/// The most bytes that a chunk of a large text holds.
pub const CHUNK_SIZE: usize = 100_000;

/// Whether the byte at `at` is whitespace that no sentence boundary can
/// hold: it stands in a run of one-byte whitespace that begins behind
/// `start`, and the byte before the run is a one-byte character that does
/// not end a sentence.
pub open spec fn plain_space_at(bytes: Seq<u8>, start: int, at: int) -> bool
    decreases at - start,
{
    if start < at < bytes.len() && is_space_byte(bytes[at]) {
        if is_space_byte(bytes[at - 1]) {
            plain_space_at(bytes, start, at - 1)
        } else {
            bytes[at - 1] < 0x80 && !is_mark_byte(bytes[at - 1])
        }
    } else {
        false
    }
}

/// Whether a chunk that begins at `start` may end behind the byte at `at`:
/// behind whitespace that no sentence boundary can hold if `plain` is set,
/// behind any one-byte whitespace if not.
pub open spec fn is_cut(bytes: Seq<u8>, start: int, at: int, plain: bool) -> bool {
    if plain {
        plain_space_at(bytes, start, at)
    } else {
        start <= at < bytes.len() && is_space_byte(bytes[at])
    }
}

/// The last position from `start` up to, but not including, `end` behind
/// which a chunk may end.
pub open spec fn last_cut(bytes: Seq<u8>, start: int, end: int, plain: bool) -> Option<int>
    decreases end - start,
{
    if end <= start {
        None
    } else if is_cut(bytes, start, end - 1, plain) {
        Some(end - 1)
    } else {
        last_cut(bytes, start, end - 1, plain)
    }
}

/// Where the chunk that begins at `start` ends. What is left of the text
/// is one chunk if it has no more than `CHUNK_SIZE` bytes. Otherwise the
/// chunk ends within its first `CHUNK_SIZE` bytes: behind the last
/// whitespace that no sentence boundary can hold; if there is none, behind
/// the last whitespace; and if there is no whitespace, at `CHUNK_SIZE`
/// bytes, be that inside a character.
pub open spec fn chunk_end(bytes: Seq<u8>, start: int) -> int {
    if bytes.len() - start <= CHUNK_SIZE {
        bytes.len() as int
    } else {
        match last_cut(bytes, start, start + CHUNK_SIZE, true) {
            Some(at) => at + 1,
            None => match last_cut(bytes, start, start + CHUNK_SIZE, false) {
                Some(at) => at + 1,
                None => start + CHUNK_SIZE,
            },
        }
    }
}

/// The tokens of the text whose bytes follow `start`, tokenized chunk by
/// chunk: each chunk is decoded and tokenized by itself, and the tokens
/// are put together in order. There is no result if a chunk is not valid
/// UTF-8 by itself, which can only be where a chunk without whitespace
/// ends inside a character. (A chunk always holds a byte and ends within
/// the text, so that nothing else stands in the way of a result.)
pub open spec fn chunked_tokens(bytes: Seq<u8>, start: int, options: TokenizerOptions) -> Option<
    Seq<Seq<char>>,
>
    decreases bytes.len() - start,
{
    if start < 0 || start >= bytes.len() {
        Some(Seq::empty())
    } else {
        let end = chunk_end(bytes, start);
        if end <= start || end > bytes.len() {
            None
        } else if !valid_utf8(bytes.subrange(start, end)) {
            None
        } else {
            match chunked_tokens(bytes, end, options) {
                Some(rest) => Some(
                    tokens_of_text(decode_utf8(bytes.subrange(start, end)), options) + rest,
                ),
                None => None,
            }
        }
    }
}

/// The tokens of a text that may be large: those of the text as a whole if
/// its UTF-8 form has at most `LARGE_TEXT_THRESHOLD` bytes, those of its
/// chunks if it has more.
pub open spec fn large_text_tokens(text: Seq<char>, options: TokenizerOptions) -> Option<
    Seq<Seq<char>>,
> {
    if encode_utf8(text).len() > LARGE_TEXT_THRESHOLD {
        chunked_tokens(encode_utf8(text), 0, options)
    } else {
        Some(tokens_of_text(text, options))
    }
}

/// A cut lies between the two ends of its search.
pub proof fn lemma_last_cut(bytes: Seq<u8>, start: int, end: int, plain: bool)
    requires
        start <= end <= bytes.len(),
    ensures
        match last_cut(bytes, start, end, plain) {
            Some(at) => start <= at < end && is_cut(bytes, start, at, plain),
            None => forall|at: int| start <= at < end ==> !is_cut(bytes, start, at, plain),
        },
    decreases end - start,
{
    if end > start {
        lemma_last_cut(bytes, start, end - 1, plain);
    }
}

/// Every chunk holds a byte at least and ends within the text; a chunk
/// that is not the last holds `CHUNK_SIZE` bytes at most.
pub proof fn lemma_chunk_end(bytes: Seq<u8>, start: int)
    requires
        0 <= start < bytes.len(),
    ensures
        start < chunk_end(bytes, start) <= bytes.len(),
        chunk_end(bytes, start) < bytes.len() ==> chunk_end(bytes, start) <= start + CHUNK_SIZE,
{
    if bytes.len() - start > CHUNK_SIZE {
        lemma_last_cut(bytes, start, start + CHUNK_SIZE, true);
        lemma_last_cut(bytes, start, start + CHUNK_SIZE, false);
    }
}

/// Skipping whitespace from `i` stops at `j` if whitespace stands from `i`
/// up to `j` and none at `j`.
pub proof fn lemma_skip_whitespace_to(text: Seq<char>, i: int, j: int)
    requires
        0 <= i <= j <= text.len(),
        forall|k: int| i <= k < j ==> is_whitespace(#[trigger] text[k]),
        j < text.len() ==> !is_whitespace(text[j]),
    ensures
        skip_whitespace(text, i) == j,
    decreases j - i,
{
    if i < j {
        assert(is_whitespace(text[i]));
        lemma_skip_whitespace_to(text, i + 1, j);
    }
}

/// Skipping whitespace from `i` passes whitespace only and stops where
/// there is none.
pub proof fn lemma_skip_whitespace_run(text: Seq<char>, i: int)
    requires
        0 <= i <= text.len(),
    ensures
        i <= skip_whitespace(text, i) <= text.len(),
        forall|k: int| i <= k < skip_whitespace(text, i) ==> is_whitespace(#[trigger] text[k]),
        skip_whitespace(text, i) < text.len() ==> !is_whitespace(
            text[skip_whitespace(text, i)],
        ),
    decreases text.len() - i,
{
    if i < text.len() && is_whitespace(text[i]) {
        lemma_skip_whitespace_run(text, i + 1);
    }
}

/// Behind a front part, whitespace is skipped as in the back part alone.
proof fn lemma_skip_whitespace_behind(front: Seq<char>, back: Seq<char>, k: int)
    requires
        0 <= k <= back.len(),
    ensures
        skip_whitespace(front + back, front.len() + k) == front.len() + skip_whitespace(back, k),
    decreases back.len() - k,
{
    if k < back.len() {
        assert((front + back)[front.len() + k] == back[k]);
        if is_whitespace(back[k]) {
            lemma_skip_whitespace_behind(front, back, k + 1);
        }
    }
}

/// Behind a front part, a text is rewritten as the back part alone.
proof fn lemma_spaced_behind(front: Seq<char>, back: Seq<char>, options: TokenizerOptions, k: int)
    requires
        0 <= k,
    ensures
        spaced(front + back, options, front.len() + k) == spaced(back, options, k),
    decreases back.len() - k,
{
    let text = front + back;
    let at = front.len() + k;
    if k < back.len() {
        assert(text[at] == back[k]);
        lemma_skip_whitespace_behind(front, back, k + 1);
        lemma_skip_whitespace_run(back, k + 1);
        let next = skip_whitespace(back, k + 1);
        if next < back.len() {
            assert(text[front.len() + next] == back[next]);
        }
        if boundary_at(back, k) {
            lemma_spaced_behind(front, back, options, next + 1);
        } else {
            lemma_spaced_behind(front, back, options, k + 1);
        }
    }
}

/// Up to the end of a front part that ends plainly, a text is rewritten as
/// the front part alone, and then goes on.
proof fn lemma_spaced_before(
    front: Seq<char>,
    back: Seq<char>,
    options: TokenizerOptions,
    run: int,
    i: int,
)
    requires
        plain_run(front, run),
        0 <= i <= front.len(),
    ensures
        spaced(front + back, options, i) == spaced(front, options, i) + spaced(
            front + back,
            options,
            front.len() as int,
        ),
    decreases front.len() - i,
{
    let text = front + back;
    let end = front.len() as int;
    if i < end {
        assert(text[i] == front[i]);
        lemma_skip_whitespace_run(front, i + 1);
        let next = skip_whitespace(front, i + 1);
        assert(forall|k: int| 0 <= k < end ==> text[k] == front[k]);
        if next < end {
            lemma_skip_whitespace_to(text, i + 1, next);
            assert(boundary_at(text, i) == boundary_at(front, i));
        } else {
            // Whitespace stands from `i + 1` to the end of the front part:
            // `i` is in the last run or just before it, and holds no mark.
            if i + 1 <= run - 1 {
                assert(is_whitespace(front[run - 1]));
            }
            assert(!is_sentence_end(front[i]));
            assert(!boundary_at(text, i));
            assert(!boundary_at(front, i));
        }
        let rest = spaced(text, options, end);
        if boundary_at(front, i) {
            lemma_spaced_before(front, back, options, run, next + 1);
            assert(spaced(text, options, i) =~= spaced(front, options, i) + rest);
        } else {
            lemma_spaced_before(front, back, options, run, i + 1);
            assert(spaced(text, options, i) =~= spaced(front, options, i) + rest);
        }
    } else {
        assert(spaced(front, options, i) + spaced(text, options, end) =~= spaced(
            text,
            options,
            end,
        ));
    }
}

/// A text that ends plainly is rewritten to a text that ends with a space.
proof fn lemma_spaced_ends_with_space(
    front: Seq<char>,
    options: TokenizerOptions,
    run: int,
    i: int,
)
    requires
        plain_run(front, run),
        0 <= i < front.len(),
    ensures
        spaced(front, options, i).len() > 0,
        spaced(front, options, i).last() == ' ',
    decreases front.len() - i,
{
    let end = front.len() as int;
    lemma_skip_whitespace_run(front, i + 1);
    let next = skip_whitespace(front, i + 1);
    if boundary_at(front, i) {
        // The letter of the boundary is no whitespace: it stands before the
        // last run.
        if next >= run {
            assert(is_whitespace(front[next]));
        }
        lemma_spaced_ends_with_space(front, options, run, next + 1);
    } else if i + 1 < end {
        lemma_spaced_ends_with_space(front, options, run, i + 1);
    } else {
        assert(is_whitespace(front[i]));
        assert(spaced(front, options, i + 1) =~= Seq::<char>::empty());
        assert(spaced(front, options, i) =~= seq![' ']);
    }
}

/// Behind a front part, words are cut as in the back part alone.
proof fn lemma_words_behind(x: Seq<char>, y: Seq<char>, k: int, word: Seq<char>)
    requires
        0 <= k,
    ensures
        words_from(x + y, x.len() + k, word) == words_from(y, k, word),
    decreases y.len() - k,
{
    if k < y.len() {
        assert((x + y)[x.len() + k] == y[k]);
        if is_whitespace(y[k]) {
            lemma_words_behind(x, y, k + 1, Seq::empty());
        } else {
            lemma_words_behind(x, y, k + 1, word.push(y[k]));
        }
    }
}

/// The words of two texts, the first of which ends with whitespace, are
/// the words of the one and then the words of the other.
proof fn lemma_words_before(x: Seq<char>, y: Seq<char>, i: int, word: Seq<char>)
    requires
        x.len() > 0,
        is_whitespace(x.last()),
        0 <= i <= x.len(),
        i == x.len() ==> word.len() == 0,
    ensures
        words_from(x + y, i, word) == words_from(x, i, word) + words(y),
    decreases x.len() - i,
{
    if i < x.len() {
        assert((x + y)[i] == x[i]);
        if is_whitespace(x[i]) {
            lemma_words_before(x, y, i + 1, Seq::empty());
            assert(words_from(x + y, i, word) =~= words_from(x, i, word) + words(y));
        } else {
            lemma_words_before(x, y, i + 1, word.push(x[i]));
        }
    } else {
        lemma_words_behind(x, y, 0, word);
        assert(word =~= Seq::<char>::empty());
        assert(words_from(x, i, word) + words(y) =~= words(y));
    }
}

/// Cutting a text behind whitespace that no sentence boundary can hold
/// changes no token: the tokens of the whole are the tokens of the part
/// before the cut and then the tokens of the part behind it. This is why
/// the chunks of a large text end behind such whitespace where they can.
pub proof fn lemma_cut_keeps_tokens(front: Seq<char>, back: Seq<char>, options: TokenizerOptions)
    requires
        ends_plainly(front),
    ensures
        tokens_of_text(front + back, options) == tokens_of_text(front, options) + tokens_of_text(
            back,
            options,
        ),
{
    let run = choose|run: int| plain_run(front, run);
    let text = front + back;
    let x = spaced(front, options, 0);
    let y = spaced(back, options, 0);
    lemma_spaced_before(front, back, options, run, 0);
    lemma_spaced_behind(front, back, options, 0);
    assert(spaced(text, options, 0) == x + y);
    lemma_spaced_ends_with_space(front, options, run, 0);
    lemma_words_before(x, y, 0, Seq::empty());
    assert(words(x + y) == words(x) + words(y));
    assert(fold_case(words(x) + words(y), options.lowercase) =~= fold_case(
        words(x),
        options.lowercase,
    ) + fold_case(words(y), options.lowercase));
}

/// Whether every chunk from `start` on that is not the last ends behind
/// whitespace that no sentence boundary can hold.
pub open spec fn cuts_plainly(bytes: Seq<u8>, start: int) -> bool
    decreases bytes.len() - start,
{
    if start < 0 || start >= bytes.len() {
        true
    } else {
        let end = chunk_end(bytes, start);
        if end <= start || end > bytes.len() {
            false
        } else if end == bytes.len() {
            true
        } else {
            plain_space_at(bytes, start, end - 1) && cuts_plainly(bytes, end)
        }
    }
}

/// Whether the first `CHUNK_SIZE` bytes from `start` on hold whitespace that
/// no sentence boundary can hold.
pub open spec fn has_plain_space(bytes: Seq<u8>, start: int) -> bool {
    exists|at: int| start < at < start + CHUNK_SIZE && #[trigger] plain_space_at(bytes, start, at)
}

/// In a text of which every stretch of `CHUNK_SIZE` bytes holds whitespace
/// that no sentence boundary can hold, as prose does, every chunk but the
/// last ends behind such whitespace.
pub proof fn lemma_prose_cuts_plainly(bytes: Seq<u8>, start: int)
    requires
        0 <= start <= bytes.len(),
        forall|from: int|
            0 <= from && bytes.len() - from > CHUNK_SIZE ==> #[trigger] has_plain_space(
                bytes,
                from,
            ),
    ensures
        cuts_plainly(bytes, start),
    decreases bytes.len() - start,
{
    if start < bytes.len() {
        lemma_chunk_end(bytes, start);
        if bytes.len() - start > CHUNK_SIZE {
            assert(has_plain_space(bytes, start));
            let at = choose|at: int|
                start < at < start + CHUNK_SIZE && #[trigger] plain_space_at(bytes, start, at);
            assert(is_cut(bytes, start, at, true));
            lemma_last_cut(bytes, start, start + CHUNK_SIZE, true);
            lemma_prose_cuts_plainly(bytes, chunk_end(bytes, start));
        }
    }
}

/// A chunk that ends behind whitespace that no sentence boundary can hold
/// ends with such whitespace.
proof fn lemma_plain_space_tail(bytes: Seq<u8>, start: int, at: int)
    requires
        0 <= start,
        plain_space_at(bytes, start, at),
    ensures
        plain_tail(bytes.subrange(start, at + 1)),
    decreases at - start,
{
    let chunk = bytes.subrange(start, at + 1);
    assert(chunk.last() == bytes[at]);
    assert(chunk[chunk.len() - 2] == bytes[at - 1]);
    if is_space_byte(bytes[at - 1]) {
        lemma_plain_space_tail(bytes, start, at - 1);
        assert(chunk.drop_last() =~= bytes.subrange(start, at));
    }
}

/// Where every chunk but the last ends behind whitespace that no sentence
/// boundary can hold, tokenizing chunk by chunk gives the tokens of the
/// text as a whole.
pub proof fn lemma_chunks_keep_tokens(bytes: Seq<u8>, start: int, options: TokenizerOptions)
    requires
        valid_utf8(bytes),
        0 <= start <= bytes.len(),
        is_char_boundary(bytes, start),
        cuts_plainly(bytes, start),
    ensures
        chunked_tokens(bytes, start, options) == Some(
            tokens_of_text(decode_utf8(bytes.subrange(start, bytes.len() as int)), options),
        ),
    decreases bytes.len() - start,
{
    let len = bytes.len() as int;
    let tail = bytes.subrange(start, len);
    valid_utf8_split(bytes, start);
    if start == len {
        assert(tail =~= Seq::<u8>::empty());
        assert(tokens_of_text(decode_utf8(tail), options) =~= Seq::<Seq<char>>::empty());
    } else {
        let end = chunk_end(bytes, start);
        lemma_chunk_end(bytes, start);
        let chunk = bytes.subrange(start, end);
        if end == len {
            assert(chunk =~= tail);
            assert(tokens_of_text(decode_utf8(tail), options) + Seq::<Seq<char>>::empty()
                =~= tokens_of_text(decode_utf8(tail), options));
        } else {
            let rest = bytes.subrange(end, len);
            assert(tail[end - 1 - start] == bytes[end - 1]);
            lemma_boundary_behind(bytes, end - 1);
            lemma_boundary_behind(tail, end - 1 - start);
            valid_utf8_split(tail, end - start);
            decode_utf8_split(tail, end - start);
            assert(tail.subrange(0, end - start) =~= chunk);
            assert(tail.subrange(end - start, tail.len() as int) =~= rest);
            lemma_plain_space_tail(bytes, start, end - 1);
            lemma_plain_tail(chunk);
            lemma_cut_keeps_tokens(decode_utf8(chunk), decode_utf8(rest), options);
            lemma_chunks_keep_tokens(bytes, end, options);
        }
    }
}

/// Where every chunk of a large text but the last ends behind whitespace
/// that no sentence boundary can hold, the tokens of the large text are
/// those of the text tokenized as a whole: no word and no sentence boundary
/// is lost at the end of a chunk.
pub proof fn lemma_large_text_keeps_tokens(text: Seq<char>, options: TokenizerOptions)
    requires
        cuts_plainly(encode_utf8(text), 0),
    ensures
        large_text_tokens(text, options) == Some(tokens_of_text(text, options)),
{
    let bytes = encode_utf8(text);
    encode_utf8_valid_utf8(text);
    encode_utf8_decode_utf8(text);
    is_char_boundary_start_end_of_seq(bytes);
    assert(bytes.subrange(0, bytes.len() as int) =~= bytes);
    lemma_chunks_keep_tokens(bytes, 0, options);
}

/// Tells whether `byte` is whitespace of one byte.
fn byte_is_space(byte: u8) -> (r: bool)
    ensures
        r == is_space_byte(byte),
{
    (0x09 <= byte && byte <= 0x0D) || byte == 0x20
}

/// Where the chunk that begins at `start` ends.
fn find_chunk_end(bytes: &[u8], start: usize) -> (end: usize)
    requires
        start < bytes@.len(),
    ensures
        end == chunk_end(bytes@, start as int),
        start < end <= bytes@.len(),
{
    proof {
        lemma_chunk_end(bytes@, start as int);
    }
    if bytes.len() - start <= CHUNK_SIZE {
        return bytes.len();
    }
    let limit = start + CHUNK_SIZE;
    let mut last_any: Option<usize> = None;
    let mut last_plain: Option<usize> = None;
    let mut before_plain = false;
    let mut i: usize = start;
    while i < limit
        invariant
            start <= i <= limit,
            limit == start + CHUNK_SIZE,
            limit < bytes@.len(),
            before_plain == plain_space_at(bytes@, start as int, i - 1),
            last_cut(bytes@, start as int, i as int, false) == match last_any {
                Some(at) => Some(at as int),
                None => None,
            },
            last_cut(bytes@, start as int, i as int, true) == match last_plain {
                Some(at) => Some(at as int),
                None => None,
            },
        decreases limit - i,
    {
        let here = byte_is_space(bytes[i]);
        let here_plain = here && i > start && (if byte_is_space(bytes[i - 1]) {
            before_plain
        } else {
            bytes[i - 1] < 0x80 && !(bytes[i - 1] == 0x2E || bytes[i - 1] == 0x21 || bytes[i - 1]
                == 0x3F)
        });
        assert(here_plain == plain_space_at(bytes@, start as int, i as int));
        if here {
            last_any = Some(i);
        }
        if here_plain {
            last_plain = Some(i);
        }
        before_plain = here_plain;
        i += 1;
    }
    match last_plain {
        Some(at) => at + 1,
        None => match last_any {
            Some(at) => at + 1,
            None => limit,
        },
    }
}

/// Tokenizes a text of any size. A text of at most `LARGE_TEXT_THRESHOLD`
/// bytes is tokenized as a whole. A larger one is cut into chunks of
/// `CHUNK_SIZE` bytes at most, and each chunk is tokenized by itself.
///
/// A chunk ends behind whitespace, so that no word is cut in two, and
/// behind such whitespace as does not follow a mark that ends a sentence,
/// so that no sentence boundary is cut in two either; only where the chunk
/// holds no whitespace of that kind does it end behind other whitespace.
/// A chunk without any whitespace is cut at `CHUNK_SIZE` bytes, and if that
/// falls inside a character the call fails with a `Tokenization` error, so
/// that no data is dropped in silence.
pub fn tokenize_large_text(text: &str, options: &TokenizerOptions) -> (result: Result<
    Vec<String>,
    TextGenError,
>)
    ensures
        match large_text_tokens(text@, *options) {
            Some(tokens) => result matches Ok(list) && tokens_of(list@) == tokens,
            None => result matches Err(TextGenError::Tokenization(detail)) && detail@
                == "Invalid UTF-8 sequence in text"@,
        },
        cuts_plainly(encode_utf8(text@), 0) ==> (result matches Ok(list) && tokens_of(list@)
            == tokens_of_text(text@, *options)),
{
    proof {
        if cuts_plainly(encode_utf8(text@), 0) {
            lemma_large_text_keeps_tokens(text@, *options);
        }
    }
    assert(text.spec_bytes() == encode_utf8(text@));
    let bytes = text.as_bytes();
    if bytes.len() > LARGE_TEXT_THRESHOLD {
        let mut all: Vec<String> = Vec::new();
        let mut start: usize = 0;
        assert(tokens_of(all@) =~= Seq::<Seq<char>>::empty());
        assert forall|rest: Seq<Seq<char>>| #[trigger] (tokens_of(all@) + rest) == rest by {
            assert(tokens_of(all@) + rest =~= rest);
        }
        while start < bytes.len()
            invariant
                start <= bytes@.len(),
                bytes@ == encode_utf8(text@),
                bytes@.len() > LARGE_TEXT_THRESHOLD,
                cuts_plainly(bytes@, 0) ==> large_text_tokens(text@, *options) == Some(
                    tokens_of_text(text@, *options),
                ),
                chunked_tokens(bytes@, 0, *options) == match chunked_tokens(
                    bytes@,
                    start as int,
                    *options,
                ) {
                    Some(rest) => Some(tokens_of(all@) + rest),
                    None => None,
                },
            decreases bytes.len() - start,
        {
            let end = find_chunk_end(bytes, start);
            let chunk = slice_subrange(bytes, start, end);
            match decode(chunk) {
                Some(piece) => {
                    let ghost earlier = tokens_of(all@);
                    let mut tokens = tokenize(piece, options);
                    let ghost added = tokens_of(tokens@);
                    all.append(&mut tokens);
                    proof {
                        assert(tokens_of(all@) =~= earlier + added);
                        assert forall|rest: Seq<Seq<char>>|
                            earlier + (added + rest) == #[trigger] (tokens_of(all@) + rest) by {
                            assert(earlier + (added + rest) =~= (earlier + added) + rest);
                        }
                    }
                },
                None => {
                    return Err(
                        TextGenError::Tokenization("Invalid UTF-8 sequence in text".to_owned()),
                    );
                },
            }
            start = end;
        }
        assert(tokens_of(all@) + Seq::<Seq<char>>::empty() =~= tokens_of(all@));
        Ok(all)
    } else {
        Ok(tokenize(text, options))
    }
}

} // verus!
