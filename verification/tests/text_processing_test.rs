use text_gen_ngram::error::TextGenError;
use text_gen_ngram::text::processing::tokenize_large_text;
use text_gen_ngram::text::{normalize_text, tokenize, TokenizerOptions};

fn strings(list: &[&str]) -> Vec<String> {
    list.iter().map(|s| s.to_string()).collect()
}

#[test]
fn test_tokenize_with_default_options() {
    let text = "Hello, world! This is a test.";
    let options = TokenizerOptions::default();
    let tokens = tokenize(text, &options);

    let expected = vec![
        "hello",
        ",",
        "world!",
        "<sentence>",
        "this",
        "is",
        "a",
        "test",
        ".",
    ];

    assert_eq!(
        tokens,
        expected.iter().map(|s| s.to_string()).collect::<Vec<_>>()
    );
}

#[test]
fn test_tokenize_without_punctuation() {
    let text = "Hello, world! This is a test.";
    let options = TokenizerOptions {
        preserve_punctuation: false,
        ..Default::default()
    };
    let tokens = tokenize(text, &options);

    let expected = vec!["hello", "world!", "<sentence>", "this", "is", "a", "test"];

    assert_eq!(
        tokens,
        expected.iter().map(|s| s.to_string()).collect::<Vec<_>>()
    );
}

#[test]
fn test_tokenize_with_sentence_boundaries() {
    let text = "First sentence. Second sentence! Third sentence?";
    let options = TokenizerOptions::default();
    let tokens = tokenize(text, &options);

    assert!(tokens.contains(&"<sentence>".to_string()));
}

#[test]
fn test_normalize_text() {
    let text = "  Hello,   world!  ";
    let normalized = normalize_text(text);
    assert_eq!(normalized, "Hello, world!");

    let text = "Hello\n\nworld\t\ttest";
    let normalized = normalize_text(text);
    assert_eq!(normalized, "Hello world test");

    let text = "";
    let normalized = normalize_text(text);
    assert_eq!(normalized, "");

    let text = "   \t\n   ";
    let normalized = normalize_text(text);
    assert_eq!(normalized, "");
}

#[test]
fn test_tokenize_lowercase_option() {
    let text = "Hello, WORLD!";

    let options = TokenizerOptions::default();
    let tokens = tokenize(text, &options);
    assert!(tokens.contains(&"hello".to_string()));
    assert!(tokens.contains(&"world".to_string()));
    assert!(!tokens.contains(&"WORLD".to_string()));

    let options = TokenizerOptions {
        lowercase: false,
        ..Default::default()
    };
    let tokens = tokenize(text, &options);
    assert!(tokens.contains(&"Hello".to_string()));
    assert!(tokens.contains(&"WORLD".to_string()));
    assert!(!tokens.contains(&"world".to_string()));
}

#[test]
fn test_tokenize_punctuation_option() {
    let text = "Hello, world! This is a test.";

    let options = TokenizerOptions::default();
    let tokens = tokenize(text, &options);

    println!("Tokens with punctuation: {:?}", tokens);

    assert!(tokens.contains(&",".to_string()));
    assert!(tokens.contains(&"world!".to_string()));
    assert!(tokens.contains(&".".to_string()));

    let options = TokenizerOptions {
        preserve_punctuation: false,
        ..Default::default()
    };
    let tokens = tokenize(text, &options);

    println!("Tokens without punctuation: {:?}", tokens);

    assert!(!tokens.contains(&",".to_string()));
    assert!(!tokens.contains(&".".to_string()));
}

#[test]
fn test_tokenize_sentence_boundaries_option() {
    let text = "First. Second.";

    let options = TokenizerOptions::default();
    let tokens = tokenize(text, &options);
    assert!(
        tokens.contains(&"<sentence>".to_string()) || tokens.contains(&"<SENTENCE>".to_string())
    );

    let options = TokenizerOptions {
        preserve_sentence_boundaries: false,
        ..Default::default()
    };
    let tokens = tokenize(text, &options);
    assert!(
        !tokens.contains(&"<sentence>".to_string()) && !tokens.contains(&"<SENTENCE>".to_string())
    );
}

#[test]
fn test_tokenize_edge_cases() {
    let text = "";
    let options = TokenizerOptions::default();
    let tokens = tokenize(text, &options);
    assert!(tokens.is_empty());

    let text = ".,!?";
    let options = TokenizerOptions::default();
    let tokens = tokenize(text, &options);
    assert_eq!(tokens.len(), 4);

    let text = "   \t\n   ";
    let options = TokenizerOptions::default();
    let tokens = tokenize(text, &options);
    assert!(tokens.is_empty());
}

#[test]
fn test_tokenize_large_text() {
    let mut large_text = String::with_capacity(1_100_000);
    for _ in 0..110_000 {
        large_text.push_str("hello world ");
    }

    let options = TokenizerOptions::default();
    let result = tokenize_large_text(&large_text, &options);

    assert!(result.is_ok());
    let tokens = result.unwrap();
    assert!(!tokens.is_empty());
    assert!(tokens.contains(&"hello".to_string()));
    assert!(tokens.contains(&"world".to_string()));

    let small_text = "Hello, world!";
    let result = tokenize_large_text(small_text, &options);

    assert!(result.is_ok());
    let tokens = result.unwrap();
    assert_eq!(tokens, tokenize(small_text, &options));
}

#[test]
fn default_options_switch_everything_on() {
    let options = TokenizerOptions::default();
    assert!(options.lowercase);
    assert!(options.preserve_punctuation);
    assert!(options.preserve_sentence_boundaries);
}

#[test]
fn normalize_knows_every_kind_of_whitespace() {
    assert_eq!(normalize_text("a\u{3000}b"), "a b");
    assert_eq!(normalize_text("\u{a0}\u{2003} x \u{85}\u{2028}"), "x");
    assert_eq!(normalize_text("a\u{b}\u{c}\r\n\u{1680}\u{202f}\u{205f}\u{2029}b"), "a b");
    assert_eq!(normalize_text("a\u{200b}b"), "a\u{200b}b");
}

#[test]
fn normalize_keeps_case_and_other_characters() {
    assert_eq!(normalize_text("HeLLo,\tWÖRLD!  ¿Qué?"), "HeLLo, WÖRLD! ¿Qué?");
    assert_eq!(normalize_text("x"), "x");
    assert_eq!(normalize_text(" "), "");
    assert_eq!(normalize_text("a "), "a");
    assert_eq!(normalize_text(" a"), "a");
}

#[test]
fn normalize_is_idempotent_on_examples() {
    for text in ["  a  b \n c ", "", "abc", "\t\t", "a\u{a0}\u{a0}b"] {
        let once = normalize_text(text);
        assert_eq!(normalize_text(&once), once);
    }
}

#[test]
fn tokenize_keeps_case_and_marker_when_lowercase_is_off() {
    let options = TokenizerOptions {
        lowercase: false,
        ..Default::default()
    };
    assert_eq!(
        tokenize("Hello, world! This is a test.", &options),
        strings(&["Hello", ",", "world!", "<SENTENCE>", "This", "is", "a", "test", "."])
    );
}

#[test]
fn tokenize_without_sentence_boundaries_keeps_the_mark_on_the_word() {
    let options = TokenizerOptions {
        preserve_sentence_boundaries: false,
        ..Default::default()
    };
    assert_eq!(
        tokenize("Hi there. Next one", &options),
        strings(&["hi", "there.", "next", "one"])
    );
    let bare = TokenizerOptions {
        lowercase: false,
        preserve_punctuation: false,
        preserve_sentence_boundaries: false,
    };
    assert_eq!(
        tokenize("Hello, world! This is a test.", &bare),
        strings(&["Hello", "world!", "This", "is", "a", "test"])
    );
}

#[test]
fn sentence_boundary_needs_whitespace_and_an_upper_case_letter() {
    let options = TokenizerOptions::default();
    assert_eq!(tokenize("end. start", &options), strings(&["end", ".", "start"]));
    assert_eq!(tokenize("end.Start", &options), strings(&["end", ".", "start"]));
    assert_eq!(
        tokenize("end.\n\t Start", &options),
        strings(&["end.", "<sentence>", "start"])
    );
    assert_eq!(tokenize("end. Émile", &options), strings(&["end", ".", "émile"]));
    assert_eq!(tokenize("end. 9", &options), strings(&["end", ".", "9"]));
    assert_eq!(tokenize("end. ", &options), strings(&["end", "."]));
    assert_eq!(
        tokenize("A. B. C", &options),
        strings(&["a.", "<sentence>", "b.", "<sentence>", "c"])
    );
    assert_eq!(tokenize("? Z", &options), strings(&["?", "<sentence>", "z"]));
}

#[test]
fn every_punctuation_mark_is_set_apart() {
    let options = TokenizerOptions::default();
    assert_eq!(
        tokenize("a.b,c!d?e;f:g(h)i[j]k{l}m\"n'o-p", &options),
        strings(&[
            "a", ".", "b", ",", "c", "!", "d", "?", "e", ";", "f", ":", "g", "(", "h", ")", "i",
            "[", "j", "]", "k", "{", "l", "}", "m", "\"", "n", "'", "o", "-", "p"
        ])
    );
    let dropped = TokenizerOptions {
        preserve_punctuation: false,
        ..Default::default()
    };
    assert_eq!(
        tokenize("well-known (so-called) \"thing\"", &dropped),
        strings(&["well", "known", "so", "called", "thing"])
    );
    assert_eq!(tokenize("a_b#c@d", &options), strings(&["a_b#c@d"]));
}

#[test]
fn lowercase_goes_beyond_ascii() {
    let options = TokenizerOptions::default();
    assert_eq!(tokenize("ÄRGER Über", &options), strings(&["ärger", "über"]));
}

#[test]
fn large_text_is_cut_between_words() {
    let text = "hello world ".repeat(110_000);
    assert_eq!(text.len(), 1_320_000);
    let options = TokenizerOptions::default();
    let tokens = tokenize_large_text(&text, &options).unwrap();
    assert_eq!(tokens.len(), 220_000);
    for (i, token) in tokens.iter().enumerate() {
        assert_eq!(token, if i % 2 == 0 { "hello" } else { "world" });
    }

    // 100000 = 7 * 14285 + 5: the limit falls inside a word, the cut before it.
    let text = "abcdef ".repeat(150_000);
    let tokens = tokenize_large_text(&text, &options).unwrap();
    assert_eq!(tokens.len(), 150_000);
    assert!(tokens.iter().all(|t| t == "abcdef"));
}

#[test]
fn large_text_is_cut_outside_sentence_boundaries() {
    let options = TokenizerOptions::default();
    for unit in [
        "Hello world. ",
        "It rains. The sun shines! Why? Because, well, it does. ",
        "One. Two three. ",
        "Hello  World.\t\nNext one ",
    ] {
        let text = unit.repeat(1_000_100 / unit.len() + 1);
        assert!(text.len() > 1_000_000);
        assert_eq!(
            tokenize_large_text(&text, &options).unwrap(),
            tokenize(&text, &options),
            "unit {:?}",
            unit
        );
    }
    let bare = TokenizerOptions {
        lowercase: false,
        preserve_punctuation: false,
        preserve_sentence_boundaries: true,
    };
    let text = "Über alles. Émile Zola wrote - a lot. Z ".repeat(30_000);
    assert!(text.len() > 1_000_000);
    assert_eq!(tokenize_large_text(&text, &bare).unwrap(), tokenize(&text, &bare));
}

#[test]
fn large_text_with_whitespace_behind_marks_only_keeps_its_words_whole() {
    // Every space follows a mark: the cut falls behind one of them, and only
    // the sentence boundary there is lost.
    let text = "Yes. No! ".repeat(120_000);
    let options = TokenizerOptions::default();
    let tokens = tokenize_large_text(&text, &options).unwrap();
    let whole = tokenize(&text, &options);
    assert!(tokens
        .iter()
        .all(|t| ["yes.", "no!", "<sentence>", "yes", "no", ".", "!"].contains(&t.as_str())));
    let words = |list: &Vec<String>| {
        list.iter()
            .filter(|t| t.starts_with("yes") || t.starts_with("no"))
            .count()
    };
    assert_eq!(words(&tokens), 240_000);
    assert_eq!(words(&whole), 240_000);
    let markers = |list: &Vec<String>| list.iter().filter(|t| *t == "<sentence>").count();
    assert_eq!(markers(&whole), 239_999);
    assert_eq!(markers(&tokens), 239_999 - (text.len() - 1) / 99_999);
}

#[test]
fn large_text_without_whitespace_is_cut_at_the_limit() {
    let options = TokenizerOptions::default();
    let text = "a".repeat(1_200_000);
    let tokens = tokenize_large_text(&text, &options).unwrap();
    assert_eq!(tokens.len(), 12);
    assert!(tokens.iter().all(|t| t.len() == 100_000));

    // Characters of three bytes: the limit falls inside one of them.
    let text = "\u{65e5}".repeat(400_000);
    assert_eq!(text.len(), 1_200_000);
    match tokenize_large_text(&text, &options) {
        Err(TextGenError::Tokenization(detail)) => {
            assert_eq!(detail, "Invalid UTF-8 sequence in text")
        }
        other => panic!("expected a tokenization error, got {:?}", other.map(|t| t.len())),
    }

    // Characters of two bytes: the limit falls between two of them.
    let text = "\u{e9}".repeat(600_000);
    let tokens = tokenize_large_text(&text, &options).unwrap();
    assert_eq!(tokens.len(), 12);
}

#[test]
fn large_text_with_a_character_across_a_cut_is_refused() {
    let mut text = "a".repeat(99_999);
    text.push('é');
    text.push_str(&" b".repeat(500_000));
    assert!(text.len() > 1_000_000);
    let options = TokenizerOptions::default();
    match tokenize_large_text(&text, &options) {
        Err(TextGenError::Tokenization(detail)) => {
            assert_eq!(detail, "Invalid UTF-8 sequence in text")
        }
        other => panic!("expected a tokenization error, got {:?}", other.map(|t| t.len())),
    }
}

#[test]
fn text_at_the_threshold_is_tokenized_as_a_whole() {
    let mut text = "a".repeat(99_999);
    text.push('é');
    text.push_str(&" b".repeat(449_999));
    text.push_str(" c");
    assert_eq!(text.len(), 1_000_001 + 2 - 2);
    let text = &text[..text.len() - 1];
    assert_eq!(text.len(), 1_000_000);
    let options = TokenizerOptions::default();
    let tokens = tokenize_large_text(text, &options).unwrap();
    assert_eq!(tokens, tokenize(text, &options));
    assert_eq!(tokens.len(), 450_000);
}
