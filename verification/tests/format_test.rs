use text_gen_ngram::model::format::{capitals_for, format_tokens, format_with};
use text_gen_ngram::model::{Generator, NGramModel};

fn words(list: &[&str]) -> Vec<String> {
    list.iter().map(|s| s.to_string()).collect()
}

#[test]
fn heading_starts_a_paragraph_and_marker_ends_a_sentence() {
    assert_eq!(
        format_tokens(&words(&["the", "#", "fox", "<SENTENCE>", "runs"])),
        "The\n\nFox. Runs."
    );
}

#[test]
fn generator_formats_as_format_tokens_does() {
    let model = NGramModel::new(2);
    let generator = Generator::new(&model);
    let tokens = words(&["the", "#", "fox", "<SENTENCE>", "runs"]);
    assert_eq!(generator.format_generated_text(&tokens), "The\n\nFox. Runs.");
    assert_eq!(generator.format_generated_text(&tokens), format_tokens(&tokens));
}

#[test]
fn no_tokens_give_a_lone_period() {
    assert_eq!(format_tokens(&[]), ".");
}

#[test]
fn words_are_set_apart_by_one_space() {
    assert_eq!(format_tokens(&words(&["the", "quick", "fox"])), "The quick fox.");
    assert_eq!(format_tokens(&words(&["a", "b", "c", "a", "b"])), "A b c a b.");
}

#[test]
fn contraction_suffix_is_tied_to_its_word() {
    assert_eq!(format_tokens(&words(&["don", "'", "t", "stop"])), "Don't stop.");
    for suffix in ["t", "s", "ll", "ve", "re", "d", "m"] {
        assert_eq!(
            format_tokens(&words(&["we", "'", suffix, "x"])),
            format!("We'{} x.", suffix)
        );
    }
    // Not a suffix: the apostrophe is an opening mark, and no space follows it.
    assert_eq!(format_tokens(&words(&["we", "'", "xx"])), "We'xx.");
    // An apostrophe at the start or at the end is a mark as well.
    assert_eq!(format_tokens(&words(&["'", "hello"])), "'Hello.");
    assert_eq!(format_tokens(&words(&["hello", "'"])), "Hello'.");
}

#[test]
fn mark_at_the_end_is_followed_by_the_closing_period() {
    assert_eq!(format_tokens(&words(&["done", "."])), "Done..");
    assert_eq!(format_tokens(&words(&["what", "?"])), "What?.");
    assert_eq!(format_tokens(&words(&["a", ","])), "A,.");
    assert_eq!(format_tokens(&words(&["a", "(", "'"])), "A('.");
}

#[test]
fn marks_take_no_space_before_them() {
    assert_eq!(format_tokens(&words(&["hello", ",", "world", "!"])), "Hello, world!.");
    assert_eq!(format_tokens(&words(&["a", ";", "b", ":", "c"])), "A; b: c.");
    assert_eq!(format_tokens(&words(&["see", "(", "this", ")"])), "See( this).");
    assert_eq!(format_tokens(&words(&["x", "[", "y", "]", "{", "z", "}"])), "X[ y] { z}.");
    assert_eq!(format_tokens(&words(&["say", "\"", "hi", "\""])), "Say\" hi\".");
    // A hyphen is no mark for the formatter: it is a word.
    assert_eq!(format_tokens(&words(&["well", "-", "known"])), "Well - known.");
}

#[test]
fn marker_adds_no_second_period() {
    assert_eq!(format_tokens(&words(&["yes.", "<SENTENCE>", "no"])), "Yes. No.");
    assert_eq!(format_tokens(&words(&["yes!", "<SENTENCE>", "no"])), "Yes! No.");
    assert_eq!(format_tokens(&words(&["yes?", "<SENTENCE>", "no"])), "Yes? No.");
    assert_eq!(format_tokens(&words(&["yes", "<SENTENCE>", "no"])), "Yes. No.");
    assert_eq!(format_tokens(&words(&["wow", "!", "<SENTENCE>", "next"])), "Wow!. Next.");
    assert_eq!(format_tokens(&words(&["<SENTENCE>"])), "..");
    assert_eq!(format_tokens(&words(&["<SENTENCE>", "<SENTENCE>", "a"])), ".. A.");
    assert_eq!(format_tokens(&words(&["a", "<SENTENCE>"])), "A..");
}

#[test]
fn heading_at_the_start_and_at_the_end() {
    assert_eq!(format_tokens(&words(&["#", "title", "#", "body"])), "Title\n\nBody.");
    assert_eq!(format_tokens(&words(&["a", "#", "#", "b"])), "A\n\nB.");
    assert_eq!(format_tokens(&words(&["#"])), "#.");
    assert_eq!(format_tokens(&words(&["a", "#"])), "A #.");
}

#[test]
fn leftover_marker_becomes_period_and_space() {
    assert_eq!(format_tokens(&words(&["a<SENTENCE>b"])), "A. b.");
    assert_eq!(format_tokens(&words(&["x", "<sentence>", "y"])), "X <sentence> y.");
}

#[test]
fn space_before_a_mark_is_removed() {
    assert_eq!(format_tokens(&words(&["a ", ",b", " !c", " ?"])), "A,b !c ?");
    assert_eq!(format_tokens(&words(&["a", " .", "b"])), "A . b.");
    assert_eq!(format_tokens(&words(&["a  .b"])), "A .b.");
    assert_eq!(format_tokens(&words(&["<SENTENCE>", " ."])), ". .");
}

#[test]
fn whitespace_at_both_ends_is_trimmed() {
    assert_eq!(format_tokens(&words(&[" "])), ".");
    assert_eq!(format_tokens(&words(&["\u{2003}a", "b."])), "a b.");
    assert_eq!(format_tokens(&words(&["#", "#", "x"])), "X.");
}

#[test]
fn first_letter_is_capitalized_by_unicode() {
    assert_eq!(format_tokens(&words(&["ßa"])), "SSa.");
    assert_eq!(format_tokens(&words(&["élan", "vital"])), "Élan vital.");
    assert_eq!(format_tokens(&words(&["1x", "y"])), "1x y.");
    assert_eq!(format_tokens(&words(&["", "b"])), "b.");
}

#[test]
fn output_always_ends_a_sentence() {
    let cases: Vec<Vec<String>> = vec![
        words(&[]),
        words(&["a"]),
        words(&["a", ","]),
        words(&["a", "<SENTENCE>"]),
        words(&["a", "#"]),
        words(&[" ", "\n"]),
        words(&["a", "(", "'"]),
        words(&["<SENTENCE>", " ."]),
    ];
    for tokens in cases {
        let text = format_tokens(&tokens);
        assert!(
            text.ends_with('.') || text.ends_with('!') || text.ends_with('?'),
            "{:?} gave {:?}",
            tokens,
            text
        );
    }
}

#[test]
fn given_capitals_take_the_place_of_first_characters() {
    let tokens = words(&["the", "#", "fox", "<SENTENCE>", "runs"]);
    assert_eq!(
        format_with(&tokens, &words(&["T", "#", "F", "<", "R"])),
        "The\n\nFox. Runs."
    );
    assert_eq!(
        format_with(&tokens, &words(&["Th", "", "", "", "rR"])),
        "Thhe\n\nox. rRuns."
    );
    // Tokens that the list does not reach keep their first characters.
    assert_eq!(format_with(&tokens, &words(&["T"])), "The\n\nfox. runs.");
    assert_eq!(format_with(&tokens, &[]), "the\n\nfox. runs.");
    // Only a word that is due a capital takes one.
    assert_eq!(
        format_with(&words(&["a", "b", ",", "c"]), &words(&["A", "B", "X", "C"])),
        "A b, c."
    );
}

#[test]
fn capitals_are_the_upper_case_forms_of_first_characters() {
    assert_eq!(
        capitals_for(&words(&["the", "", "ßeta", "Élan", "élan", "1x", "#", "ǆ"])),
        words(&["T", "", "SS", "É", "É", "1", "#", "Ǆ"])
    );
    let tokens = words(&["ßeta", "<SENTENCE>", "élan", "x"]);
    assert_eq!(format_with(&tokens, &capitals_for(&tokens)), format_tokens(&tokens));
    assert_eq!(format_tokens(&tokens), "SSeta. Élan x.");
}
