//! Figures about a text, counted in whole numbers: its characters, its
//! words and their counts, and the pieces into which its sentence-ending
//! marks cut it.

use crate::output::words::{
    count_words, counts_view, find_words, keep_long, long_entries, lower_words, lowered, rank,
    ranked, tally, words_in, WordCount,
};
use crate::text::chars::{char_is_sentence_end, chars_of, is_sentence_end, tokens_of};
use vstd::prelude::*;

verus! {

/// How many of the most common words the insights name.
pub const MOST_COMMON_WORDS: usize = 5;

/// The figures of a text.
pub struct TextInsights {
    /// The number of characters.
    pub char_count: usize,
    /// The number of words.
    pub word_count: usize,
    /// The number of distinct words, without regard to case.
    pub unique_words: usize,
    /// The number of pieces into which the runs of sentence-ending marks
    /// cut the text: an estimate of the number of sentences.
    pub sentence_count: usize,
    /// Each distinct word, in lower case, with the number of its
    /// occurrences, in the order in which the words occur first.
    pub word_counts: Vec<WordCount>,
    /// The most common of the words that take more than two bytes, most
    /// common first.
    pub most_common: Vec<WordCount>,
}

/// The number of pieces into which the text from position `i` on is cut by
/// its runs of `.`, `!` and `?`, where `in_run` tells that the character
/// before `i` was such a mark. A text without a mark is one piece, and
/// every run of marks adds a piece.
pub open spec fn pieces_from(text: Seq<char>, i: int, in_run: bool) -> nat
    decreases text.len() - i,
{
    if i < 0 || i >= text.len() {
        1
    } else if is_sentence_end(text[i]) {
        if in_run {
            pieces_from(text, i + 1, true)
        } else {
            1 + pieces_from(text, i + 1, true)
        }
    } else {
        pieces_from(text, i + 1, false)
    }
}

/// The number of pieces into which a text is cut by its runs of `.`, `!`
/// and `?`.
pub open spec fn sentence_pieces(text: Seq<char>) -> nat {
    pieces_from(text, 0, false)
}

/// Whether `insights` holds the figures of `text`, whose words are `words`.
pub open spec fn describes(insights: TextInsights, text: Seq<char>, words: Seq<Seq<char>>) -> bool {
    &&& insights.char_count == text.len()
    &&& insights.word_count == words.len()
    &&& insights.unique_words == tally(lowered(words)).len()
    &&& insights.sentence_count == sentence_pieces(text)
    &&& counts_view(insights.word_counts@) == tally(lowered(words))
    &&& counts_view(insights.most_common@) == ranked(
        long_entries(tally(lowered(words))),
        MOST_COMMON_WORDS as nat,
    )
}

/// The number of pieces into which `text` is cut by its runs of `.`, `!`
/// and `?`.
pub fn count_sentence_pieces(text: &Vec<char>) -> (count: usize)
    requires
        text@.len() < usize::MAX,
    ensures
        count == sentence_pieces(text@),
{
    let mut before: usize = 0;
    let mut in_run = false;
    let mut i: usize = 0;
    while i < text.len()
        invariant
            text@.len() < usize::MAX,
            i <= text@.len(),
            before <= i,
            before + pieces_from(text@, i as int, in_run) == sentence_pieces(text@),
        decreases text.len() - i,
    {
        if char_is_sentence_end(text[i]) {
            if !in_run {
                before += 1;
            }
            in_run = true;
        } else {
            in_run = false;
        }
        i += 1;
    }
    before + 1
}

/// The figures of `text`, given its words.
pub fn insights_of(text: &str, words: &Vec<String>) -> (insights: TextInsights)
    requires
        text@.len() < usize::MAX,
    ensures
        describes(insights, text@, tokens_of(words@)),
{
    let chars = chars_of(text);
    let lower = lower_words(words);
    let word_counts = count_words(&lower);
    let long = keep_long(&word_counts);
    let most_common = rank(long, MOST_COMMON_WORDS);
    assert(tokens_of(words@).len() == words@.len());
    assert(counts_view(word_counts@).len() == word_counts@.len());
    TextInsights {
        char_count: chars.len(),
        word_count: words.len(),
        unique_words: word_counts.len(),
        sentence_count: count_sentence_pieces(&chars),
        word_counts,
        most_common,
    }
}

/// The figures of `text`. `None` if the words cannot be found or if the
/// text is too long for its pieces to be counted.
pub fn text_insights(text: &str) -> (insights: Option<TextInsights>)
    ensures
        match words_in(text@) {
            Some(words) => if text@.len() < usize::MAX {
                insights matches Some(figures) && describes(figures, text@, words)
            } else {
                insights is None
            },
            None => insights is None,
        },
{
    let length = text.unicode_len();
    if length == usize::MAX {
        return None;
    }
    match find_words(text) {
        Some(words) => Some(insights_of(text, &words)),
        None => None,
    }
}

} // verus!
