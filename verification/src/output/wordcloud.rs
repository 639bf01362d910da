//! The words that go into a word cloud, each with its weight.

use crate::output::words::{
    count_words, counts_view, find_words, keep_long, long_entries, lower_words, lowered, rank,
    ranked, tally, words_in, WordCount,
};
use crate::text::chars::tokens_of;
use vstd::prelude::*;

verus! {

/// The most words that a word cloud shows.
pub const MAX_CLOUD_WORDS: usize = 100;

/// The words of a cloud and their weights, given the words of a text: the
/// words are taken in lower case, those of one or two bytes are left out,
/// the weight of a word is the number of its occurrences, and the words
/// with the largest weights are kept, largest first.
pub open spec fn cloud_of(words: Seq<Seq<char>>) -> Seq<(Seq<char>, nat)> {
    ranked(long_entries(tally(lowered(words))), MAX_CLOUD_WORDS as nat)
}

/// The words of a cloud and their weights, given the words of a text.
pub fn cloud_words(words: &Vec<String>) -> (cloud: Vec<WordCount>)
    ensures
        counts_view(cloud@) == cloud_of(tokens_of(words@)),
{
    let lower = lower_words(words);
    let counts = count_words(&lower);
    let long = keep_long(&counts);
    rank(long, MAX_CLOUD_WORDS)
}

/// The words of the cloud of `text` and their weights. `None` if the words
/// cannot be found.
pub fn wordcloud_words(text: &str) -> (cloud: Option<Vec<WordCount>>)
    ensures
        match words_in(text@) {
            Some(words) => cloud matches Some(list) && counts_view(list@) == cloud_of(words),
            None => cloud is None,
        },
{
    match find_words(text) {
        Some(words) => Some(cloud_words(&words)),
        None => None,
    }
}

} // verus!
