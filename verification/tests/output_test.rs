use text_gen_ngram::output::insights::{count_sentence_pieces, insights_of, text_insights};
use text_gen_ngram::output::wordcloud::{cloud_words, wordcloud_words, MAX_CLOUD_WORDS};
use text_gen_ngram::output::words::{
    count_words, find_words, keep_long, lower_words, rank, WordCount,
};
use text_gen_ngram::scrapers::texts::is_yes;

fn strings(list: &[&str]) -> Vec<String> {
    list.iter().map(|s| s.to_string()).collect()
}

fn counts(list: &[(&str, usize)]) -> Vec<WordCount> {
    list.iter()
        .map(|(word, count)| WordCount {
            word: word.to_string(),
            count: *count,
        })
        .collect()
}

fn pieces(text: &str) -> usize {
    count_sentence_pieces(&text.chars().collect())
}

#[test]
fn words_are_runs_of_word_characters() {
    assert_eq!(
        find_words("Hello, wörld! It's 42 o_k"),
        Some(strings(&["Hello", "wörld", "It", "s", "42", "o_k"]))
    );
    assert_eq!(find_words(""), Some(strings(&[])));
    assert_eq!(find_words(" .,!? "), Some(strings(&[])));
}

#[test]
fn words_are_counted_in_order_of_first_occurrence() {
    assert_eq!(
        count_words(&strings(&["b", "a", "b", "c", "a", "b"])),
        counts(&[("b", 3), ("a", 2), ("c", 1)])
    );
    assert_eq!(count_words(&strings(&[])), counts(&[]));
    assert_eq!(lower_words(&strings(&["The", "THE", "Ärger"])), strings(&["the", "the", "ärger"]));
}

#[test]
fn short_words_are_left_out_by_their_bytes() {
    assert_eq!(
        keep_long(&counts(&[("a", 9), ("to", 8), ("the", 7), ("é", 6), ("éé", 5), ("日", 4)])),
        counts(&[("the", 7), ("éé", 5), ("日", 4)])
    );
}

#[test]
fn ranking_takes_the_largest_counts_first_and_keeps_ties_in_order() {
    let entries = || counts(&[("a", 2), ("b", 5), ("c", 2), ("d", 5), ("e", 1)]);
    assert_eq!(rank(entries(), 3), counts(&[("b", 5), ("d", 5), ("a", 2)]));
    assert_eq!(
        rank(entries(), 10),
        counts(&[("b", 5), ("d", 5), ("a", 2), ("c", 2), ("e", 1)])
    );
    assert_eq!(rank(entries(), 0), counts(&[]));
    assert_eq!(rank(counts(&[]), 4), counts(&[]));
}

#[test]
fn sentence_marks_cut_a_text_into_pieces() {
    assert_eq!(pieces(""), 1);
    assert_eq!(pieces("no mark"), 1);
    assert_eq!(pieces("One. Two"), 2);
    assert_eq!(pieces("One. Two."), 3);
    assert_eq!(pieces("What?! Yes... No."), 4);
    assert_eq!(pieces("..."), 2);
    assert_eq!(pieces(".a.b"), 3);
}

#[test]
fn insights_count_in_whole_numbers() {
    let text = "The cat saw the dog. The dog saw it! Is it so?";
    let insights = text_insights(text).unwrap();
    assert_eq!(insights.char_count, 46);
    assert_eq!(insights.word_count, 12);
    assert_eq!(insights.unique_words, 7);
    assert_eq!(insights.sentence_count, 4);
    assert_eq!(
        insights.word_counts,
        counts(&[("the", 3), ("cat", 1), ("saw", 2), ("dog", 2), ("it", 2), ("is", 1), ("so", 1)])
    );
    assert_eq!(
        insights.most_common,
        counts(&[("the", 3), ("saw", 2), ("dog", 2), ("cat", 1)])
    );
    let words = find_words(text).unwrap();
    let again = insights_of(text, &words);
    assert_eq!(again.word_counts, insights.word_counts);
    assert_eq!(again.most_common, insights.most_common);
}

#[test]
fn insights_of_an_empty_text() {
    let insights = text_insights("").unwrap();
    assert_eq!(insights.char_count, 0);
    assert_eq!(insights.word_count, 0);
    assert_eq!(insights.unique_words, 0);
    assert_eq!(insights.sentence_count, 1);
    assert!(insights.word_counts.is_empty());
    assert!(insights.most_common.is_empty());
}

#[test]
fn insights_name_five_words_at_most() {
    let text = "aaa bbb ccc ddd eee fff ggg bbb ccc ccc";
    let insights = text_insights(text).unwrap();
    assert_eq!(
        insights.most_common,
        counts(&[("ccc", 3), ("bbb", 2), ("aaa", 1), ("ddd", 1), ("eee", 1)])
    );
}

#[test]
fn cloud_takes_long_words_in_lower_case_by_weight() {
    assert_eq!(
        wordcloud_words("The end of THE road: the End, an end."),
        Some(counts(&[("the", 3), ("end", 3), ("road", 1)]))
    );
    assert_eq!(
        cloud_words(&strings(&["Aa", "BBB", "bbb", "c", "Dddd"])),
        counts(&[("bbb", 2), ("dddd", 1)])
    );
    assert_eq!(wordcloud_words(""), Some(counts(&[])));
}

#[test]
fn cloud_holds_a_hundred_words_at_most() {
    assert_eq!(MAX_CLOUD_WORDS, 100);
    let mut text = String::new();
    for i in 0..150 {
        for _ in 0..(1 + i % 7) {
            text.push_str(&format!("word{} ", i));
        }
    }
    let cloud = wordcloud_words(&text).unwrap();
    assert_eq!(cloud.len(), 100);
    assert!(cloud.windows(2).all(|pair| pair[0].count >= pair[1].count));
    assert_eq!(cloud[0], WordCount { word: "word6".to_string(), count: 7 });
}

#[test]
fn yes_is_the_letter_y() {
    assert!(is_yes("y"));
    assert!(is_yes("Y\n"));
    assert!(is_yes("  y  "));
    assert!(!is_yes("yes"));
    assert!(!is_yes("n"));
    assert!(!is_yes(""));
    assert!(!is_yes("y y"));
}
