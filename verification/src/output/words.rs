//! The words of a text and their counts.

use crate::model::ngram::{count_tokens, distinct_in_order};
use crate::model::table::{first_seen, lemma_first_seen, lemma_occurrences, occurrences};
use crate::text::chars::{lowercase, to_lowercase, tokens_of};
use vstd::prelude::*;
use vstd::utf8::encode_utf8;

verus! {

#[verifier::external_type_specification]
#[verifier::external_body]
pub struct ExRegex(regex::Regex);

/// The pattern that `regex::Regex::new` compiles a pattern text to, if it
/// compiles it.
pub uninterp spec fn compiled(pattern: Seq<char>) -> Option<regex::Regex>;

/// The matches that `regex::Regex::find_iter` finds of a pattern in a text,
/// in order.
pub uninterp spec fn matches_in(pattern: regex::Regex, text: Seq<char>) -> Seq<Seq<char>>;

/// `regex::Regex::new`, which compiles a pattern or refuses it, for a
/// fault in it or for its size. The contract names the result; whether a
/// given pattern compiles is not stated.
#[verifier::external_body]
fn compile(pattern: &str) -> (result: Option<regex::Regex>)
    ensures
        result == compiled(pattern@),
{
    regex::Regex::new(pattern).ok()
}

/// `regex::Regex::find_iter`, which yields the successive matches of the
/// pattern in the text, none overlapping another; each is taken here as
/// the text that it matched. The contract names the result and says nothing
/// of what it holds.
#[verifier::external_body]
fn find_all(pattern: &regex::Regex, text: &str) -> (found: Vec<String>)
    ensures
        tokens_of(found@) == matches_in(*pattern, text@),
{
    pattern.find_iter(text).map(|m| m.as_str().to_string()).collect()
}

/// The pattern of a word: one word character or more.
pub open spec fn word_pattern() -> Seq<char> {
    "\\w+"@
}

/// The words of a text: the matches of the word pattern, in order. `None`
/// if the pattern does not compile.
pub open spec fn words_in(text: Seq<char>) -> Option<Seq<Seq<char>>> {
    match compiled(word_pattern()) {
        Some(pattern) => Some(matches_in(pattern, text)),
        None => None,
    }
}

/// Finds the words of `text`.
pub fn find_words(text: &str) -> (found: Option<Vec<String>>)
    ensures
        match words_in(text@) {
            Some(words) => found matches Some(list) && tokens_of(list@) == words,
            None => found is None,
        },
{
    match compile("\\w+") {
        Some(pattern) => Some(find_all(&pattern, text)),
        None => None,
    }
}

/// A word and the number of its occurrences.
#[derive(Debug, PartialEq, Eq)]
pub struct WordCount {
    pub word: String,
    pub count: usize,
}

impl View for WordCount {
    type V = (Seq<char>, nat);

    open spec fn view(&self) -> (Seq<char>, nat) {
        (self.word@, self.count as nat)
    }
}

/// The words and counts that a list of word counts stands for.
pub open spec fn counts_view(list: Seq<WordCount>) -> Seq<(Seq<char>, nat)> {
    Seq::new(list.len(), |i: int| list[i]@)
}

/// The words in lower case.
pub open spec fn lowered(words: Seq<Seq<char>>) -> Seq<Seq<char>> {
    Seq::new(words.len(), |i: int| lowercase(words[i]))
}

/// Each distinct word with the number of its occurrences, in the order in
/// which the words occur first.
pub open spec fn tally(words: Seq<Seq<char>>) -> Seq<(Seq<char>, nat)> {
    Seq::new(
        first_seen(words).len(),
        |i: int| (first_seen(words)[i], occurrences(words, first_seen(words)[i])),
    )
}

/// Whether a word takes more than two bytes.
pub open spec fn is_long(word: Seq<char>) -> bool {
    encode_utf8(word).len() > 2
}

/// The entries whose words take more than two bytes, in order.
pub open spec fn long_entries(entries: Seq<(Seq<char>, nat)>) -> Seq<(Seq<char>, nat)> {
    entries.filter(|entry: (Seq<char>, nat)| is_long(entry.0))
}

/// The position of the first entry with the largest count. The entries are
/// not empty.
pub open spec fn first_largest(entries: Seq<(Seq<char>, nat)>) -> int
    decreases entries.len(),
{
    if entries.len() <= 1 {
        0
    } else {
        let before = first_largest(entries.drop_last());
        if entries.last().1 > entries[before].1 {
            entries.len() - 1
        } else {
            before
        }
    }
}

/// The `most` entries with the largest counts, largest first. Of entries
/// with the same count, the one that stands first goes first.
pub open spec fn ranked(entries: Seq<(Seq<char>, nat)>, most: nat) -> Seq<(Seq<char>, nat)>
    decreases most,
{
    if most == 0 || entries.len() == 0 {
        Seq::empty()
    } else {
        let best = first_largest(entries);
        seq![entries[best]] + ranked(entries.remove(best), (most - 1) as nat)
    }
}

/// The first largest entry is an entry, no entry has a larger count, and
/// no entry before it has the same.
pub proof fn lemma_first_largest(entries: Seq<(Seq<char>, nat)>)
    requires
        entries.len() > 0,
    ensures
        0 <= first_largest(entries) < entries.len(),
        forall|i: int|
            0 <= i < entries.len() ==> (#[trigger] entries[i]).1 <= entries[first_largest(
                entries,
            )].1,
        forall|i: int|
            0 <= i < first_largest(entries) ==> (#[trigger] entries[i]).1 < entries[first_largest(
                entries,
            )].1,
    decreases entries.len(),
{
    if entries.len() > 1 {
        lemma_first_largest(entries.drop_last());
        assert(forall|i: int|
            0 <= i < entries.len() - 1 ==> entries.drop_last()[i] == #[trigger] entries[i]);
    }
}

/// A ranking holds `most` entries, or all if there are fewer, and its
/// counts never rise.
pub proof fn lemma_ranked(entries: Seq<(Seq<char>, nat)>, most: nat)
    ensures
        ranked(entries, most).len() == if most < entries.len() {
            most
        } else {
            entries.len()
        },
        forall|i: int|
            0 <= i < ranked(entries, most).len() ==> exists|j: int|
                0 <= j < entries.len() && entries[j] == #[trigger] ranked(entries, most)[i],
        forall|i: int, j: int|
            0 <= i <= j < ranked(entries, most).len() ==> (#[trigger] ranked(entries, most)[i]).1
                >= (#[trigger] ranked(entries, most)[j]).1,
    decreases most,
{
    if most > 0 && entries.len() > 0 {
        let best = first_largest(entries);
        let rest = entries.remove(best);
        let tail = ranked(rest, (most - 1) as nat);
        let all = ranked(entries, most);
        lemma_first_largest(entries);
        lemma_ranked(rest, (most - 1) as nat);
        assert(all == seq![entries[best]] + tail);
        assert forall|i: int| 0 <= i < all.len() implies exists|j: int|
            0 <= j < entries.len() && entries[j] == #[trigger] all[i] by {
            if i > 0 {
                assert(all[i] == tail[i - 1]);
                let j = choose|j: int| 0 <= j < rest.len() && rest[j] == tail[i - 1];
                if j < best {
                    assert(entries[j] == all[i]);
                } else {
                    assert(entries[j + 1] == all[i]);
                }
            } else {
                assert(entries[best] == all[i]);
            }
        }
        assert forall|i: int, j: int| 0 <= i <= j < all.len() implies (#[trigger] all[i]).1 >= (
        #[trigger] all[j]).1 by {
            if i == 0 {
                let k = choose|k: int| 0 <= k < entries.len() && entries[k] == all[j];
                assert(entries[k].1 <= entries[best].1);
            } else {
                assert(all[i] == tail[i - 1]);
                assert(all[j] == tail[j - 1]);
            }
        }
    }
}

/// The words in lower case.
pub fn lower_words(words: &Vec<String>) -> (lower: Vec<String>)
    ensures
        tokens_of(lower@) == lowered(tokens_of(words@)),
{
    let mut lower: Vec<String> = Vec::new();
    let mut i: usize = 0;
    while i < words.len()
        invariant
            i <= words@.len(),
            lower@.len() == i,
            forall|j: int| 0 <= j < i ==> (#[trigger] lower@[j])@ == lowercase(words@[j]@),
        decreases words.len() - i,
    {
        lower.push(to_lowercase(words[i].as_str()));
        i += 1;
    }
    assert(tokens_of(lower@) =~= lowered(tokens_of(words@)));
    lower
}

/// Each distinct word of `words` with the number of its occurrences, in the
/// order in which the words occur first.
pub fn count_words(words: &Vec<String>) -> (counts: Vec<WordCount>)
    ensures
        counts_view(counts@) == tally(tokens_of(words@)),
{
    let ghost all = tokens_of(words@);
    let order = distinct_in_order(words);
    let found = count_tokens(words);
    let mut counts: Vec<WordCount> = Vec::new();
    let mut i: usize = 0;
    proof {
        lemma_first_seen(all);
    }
    while i < order.len()
        invariant
            all == tokens_of(words@),
            tokens_of(order@) == first_seen(all),
            i <= order@.len(),
            counts@.len() == i,
            forall|j: int| 0 <= j < i ==> (#[trigger] counts@[j])@ == tally(all)[j],
            forall|t: Seq<char>| found@.contains_key(t) <==> occurrences(all, t) > 0,
            forall|t: Seq<char>| found@.contains_key(t) ==> found@[t] == occurrences(all, t),
        decreases order.len() - i,
    {
        let count: usize = match found.get(order[i].as_str()) {
            Some(count) => *count,
            None => 0,
        };
        proof {
            assert(tokens_of(order@)[i as int] == order@[i as int]@);
        }
        counts.push(WordCount { word: order[i].clone(), count });
        i += 1;
    }
    assert(counts_view(counts@) =~= tally(all));
    counts
}

/// The entries whose words take more than two bytes, in order.
pub fn keep_long(entries: &Vec<WordCount>) -> (kept: Vec<WordCount>)
    ensures
        counts_view(kept@) == long_entries(counts_view(entries@)),
{
    let ghost all = counts_view(entries@);
    let ghost pred = |entry: (Seq<char>, nat)| is_long(entry.0);
    let mut kept: Vec<WordCount> = Vec::new();
    let mut i: usize = 0;
    assert(all.take(0).filter(pred) =~= Seq::<(Seq<char>, nat)>::empty()) by {
        reveal(Seq::filter);
    }
    assert(counts_view(kept@) =~= all.take(0).filter(pred));
    while i < entries.len()
        invariant
            all == counts_view(entries@),
            pred == |entry: (Seq<char>, nat)| is_long(entry.0),
            i <= entries@.len(),
            counts_view(kept@) == all.take(i as int).filter(pred),
        decreases entries.len() - i,
    {
        let ghost before = counts_view(kept@);
        proof {
            assert(all.take(i + 1) =~= all.take(i as int).push(all[i as int]));
            all.take(i as int).lemma_filter_push(all[i as int], pred);
        }
        if entries[i].word.as_str().as_bytes().len() > 2 {
            kept.push(WordCount { word: entries[i].word.clone(), count: entries[i].count });
            assert(counts_view(kept@) =~= before.push(all[i as int]));
        }
        i += 1;
    }
    assert(all.take(i as int) =~= all);
    kept
}

/// The `most` entries with the largest counts, largest first. Of entries
/// with the same count, the one that stands first goes first.
pub fn rank(entries: Vec<WordCount>, most: usize) -> (top: Vec<WordCount>)
    ensures
        counts_view(top@) == ranked(counts_view(entries@), most as nat),
{
    let ghost all = counts_view(entries@);
    let mut remaining = entries;
    let mut top: Vec<WordCount> = Vec::new();
    assert(counts_view(top@) + ranked(all, most as nat) =~= ranked(all, most as nat));
    while top.len() < most && remaining.len() > 0
        invariant
            top@.len() <= most,
            counts_view(top@) + ranked(counts_view(remaining@), (most - top@.len()) as nat)
                == ranked(all, most as nat),
        decreases remaining@.len(),
    {
        let ghost left = counts_view(remaining@);
        let ghost taken = counts_view(top@);
        let mut best: usize = 0;
        let mut i: usize = 1;
        assert(left.take(1).drop_last() =~= Seq::<(Seq<char>, nat)>::empty());
        while i < remaining.len()
            invariant
                left == counts_view(remaining@),
                1 <= i <= remaining@.len(),
                best == first_largest(left.take(i as int)),
                0 <= best < i,
            decreases remaining.len() - i,
        {
            proof {
                assert(left.take(i + 1).drop_last() =~= left.take(i as int));
                assert(left.take(i as int)[best as int] == left[best as int]);
            }
            if remaining[i].count > remaining[best].count {
                best = i;
            }
            i += 1;
        }
        assert(left.take(i as int) =~= left);
        let entry = remaining.remove(best);
        top.push(entry);
        proof {
            assert(counts_view(remaining@) =~= left.remove(best as int));
            assert(counts_view(top@) =~= taken.push(left[best as int]));
            assert(counts_view(top@) + ranked(
                counts_view(remaining@),
                (most - top@.len()) as nat,
            ) =~= taken + ranked(left, (most - taken.len()) as nat));
        }
    }
    assert(counts_view(top@) + ranked(counts_view(remaining@), (most - top@.len()) as nat)
        =~= counts_view(top@));
    top
}

} // verus!
