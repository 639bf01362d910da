use regex::{Captures, Regex};
use text_gen_ngram::model::format::format_tokens;
use text_gen_ngram::text::processing::tokenize_large_text;
use text_gen_ngram::text::{normalize_text, tokenize, TokenizerOptions};

/// A small generator of numbers that gives the same numbers on every run.
struct Numbers(u64);

impl Numbers {
    fn next(&mut self) -> u64 {
        self.0 = self
            .0
            .wrapping_mul(6364136223846793005)
            .wrapping_add(1442695040888963407);
        self.0 >> 33
    }

    fn below(&mut self, bound: usize) -> usize {
        (self.next() % bound as u64) as usize
    }
}

/// The tokenizer's rules written as one pattern with a replacement.
fn tokenize_with_pattern(pattern: &Regex, text: &str, options: &TokenizerOptions) -> Vec<String> {
    let rewritten = pattern.replace_all(text, |caps: &Captures| {
        if let (Some(mark), Some(letter)) = (caps.get(1), caps.get(2)) {
            if options.preserve_sentence_boundaries {
                return format!("{} <SENTENCE> {}", mark.as_str(), letter.as_str());
            } else {
                return format!("{} {}", mark.as_str(), letter.as_str());
            }
        }
        if let Some(mark) = caps.get(3) {
            if options.preserve_punctuation {
                return format!(" {} ", mark.as_str());
            } else {
                return " ".to_string();
            }
        }
        " ".to_string()
    });
    rewritten
        .split_whitespace()
        .map(|token| {
            if options.lowercase {
                token.to_lowercase()
            } else {
                token.to_string()
            }
        })
        .collect()
}

/// The formatter's rules written with the string functions of the standard
/// library.
fn format_with_std(tokens: &[String]) -> String {
    let mut formatted = String::new();
    let mut capitalize_next = true;
    let mut prev_token = "";

    for (i, token) in tokens.iter().enumerate() {
        if token == "#" && i < tokens.len() - 1 {
            if !formatted.is_empty() && !formatted.ends_with('\n') {
                formatted.push_str("\n\n");
            }
            capitalize_next = true;
            continue;
        }
        if token == "<SENTENCE>" {
            if !formatted.ends_with('.') && !formatted.ends_with('!') && !formatted.ends_with('?') {
                formatted.push('.');
            }
            formatted.push(' ');
            capitalize_next = true;
            continue;
        }
        let is_mark = token.len() == 1 && ",.!?;:()[]{}\"'".contains(token.as_str());
        if token == "'" && i > 0 && i < tokens.len() - 1 {
            let next_token = &tokens[i + 1];
            if ["t", "s", "ll", "ve", "re", "d", "m"].contains(&next_token.as_str()) {
                formatted.push('\'');
                prev_token = token;
                continue;
            }
        }
        if is_mark {
            formatted.push_str(token);
            if !["(", "[", "{", "\"", "'"].contains(&token.as_str()) {
                formatted.push(' ');
            }
        } else {
            if i > 0
                && !formatted.ends_with(' ')
                && !formatted.is_empty()
                && prev_token != "'"
                && !formatted.ends_with('\n')
            {
                formatted.push(' ');
            }
            if capitalize_next {
                if let Some(c) = token.chars().next() {
                    let capitalized = c.to_uppercase().collect::<String>() + &token[c.len_utf8()..];
                    formatted.push_str(&capitalized);
                } else {
                    formatted.push_str(token);
                }
                capitalize_next = false;
            } else {
                formatted.push_str(token);
            }
        }
        prev_token = token;
    }

    if !formatted.ends_with('.') && !formatted.ends_with('!') && !formatted.ends_with('?') {
        formatted.push('.');
    }
    let cleaned = formatted.replace("<SENTENCE>", ". ");
    let cleaned = cleaned
        .replace(" .", ".")
        .replace(" ,", ",")
        .replace(" !", "!")
        .replace(" ?", "?");
    cleaned.trim().to_string()
}

/// Normalizing written with the string functions of the standard library.
fn normalize_with_std(text: &str) -> String {
    text.split_whitespace().collect::<Vec<_>>().join(" ")
}

fn random_text(numbers: &mut Numbers, length: usize) -> String {
    let pieces = [
        "a", "b", "Z", "Q", "é", "É", "ß", "0", ".", ".", "!", "?", ",", ";", ":", "(", ")", "[",
        "]", "{", "}", "\"", "'", "-", " ", " ", " ", "\t", "\n", "\u{a0}", "\u{2003}", "\u{3000}",
        "\u{85}", "_", "#", "<", ">", "SENTENCE", "x",
    ];
    let mut text = String::new();
    for _ in 0..length {
        text.push_str(pieces[numbers.below(pieces.len())]);
    }
    text
}

fn random_tokens(numbers: &mut Numbers, length: usize) -> Vec<String> {
    let pieces = [
        "the", "cat", "#", "#", "<SENTENCE>", "<SENTENCE>", "'", "'", "t", "s", "ll", "ve", "re",
        "d", "m", ",", ".", "!", "?", ";", ":", "(", ")", "[", "]", "{", "}", "\"", "-", "", " ",
        " .", " ,", "a ", "\n", "x\n", "ßeta", "élan", "a<SENTENCE>b", "<SENTENCE", ">", "i", "\t",
        "end.", "what?", "no!", "\u{a0}", "1",
    ];
    (0..length)
        .map(|_| pieces[numbers.below(pieces.len())].to_string())
        .collect()
}

#[test]
fn tokenizer_agrees_with_its_pattern_on_many_texts() {
    let pattern = Regex::new("([.!?])\\s+([A-Z])|([.,!?;:()\\[\\]{}\"'\\-])|\\s+").unwrap();
    let mut numbers = Numbers(2024);
    for round in 0..2000 {
        let text = random_text(&mut numbers, 1 + round % 40);
        for bits in 0..8 {
            let options = TokenizerOptions {
                lowercase: bits & 1 != 0,
                preserve_punctuation: bits & 2 != 0,
                preserve_sentence_boundaries: bits & 4 != 0,
            };
            assert_eq!(
                tokenize(&text, &options),
                tokenize_with_pattern(&pattern, &text, &options),
                "text {:?}, options {:?}",
                text,
                options
            );
        }
    }
}

#[test]
fn formatter_agrees_with_the_standard_library_on_many_token_lists() {
    let mut numbers = Numbers(7);
    for round in 0..10000 {
        let tokens = random_tokens(&mut numbers, round % 12);
        assert_eq!(
            format_tokens(&tokens),
            format_with_std(&tokens),
            "tokens {:?}",
            tokens
        );
    }
}

#[test]
fn normalizing_agrees_with_the_standard_library_on_many_texts() {
    let mut numbers = Numbers(99);
    for round in 0..3000 {
        let text = random_text(&mut numbers, round % 30);
        assert_eq!(normalize_text(&text), normalize_with_std(&text), "text {:?}", text);
    }
}

#[test]
fn large_prose_is_tokenized_as_a_whole() {
    let pieces = [
        "the ", "cat ", "Cat ", "sat. ", "Sat! ", "on, ", "a ", "mat? ", "É ", "été ", "\u{65e5}\u{672c} ",
        "well-known ", "(so) ", "\n", "  ", "\t", "x.\u{a0}Y ", "end.  Next ", "it's ", "A. B. ",
    ];
    let mut numbers = Numbers(4711);
    let mut text = String::new();
    while text.len() <= 1_050_000 {
        text.push_str(pieces[numbers.below(pieces.len())]);
    }
    for bits in 0..8 {
        let options = TokenizerOptions {
            lowercase: bits & 1 != 0,
            preserve_punctuation: bits & 2 != 0,
            preserve_sentence_boundaries: bits & 4 != 0,
        };
        if bits % 3 != 0 {
            continue;
        }
        assert_eq!(
            tokenize_large_text(&text, &options).unwrap(),
            tokenize(&text, &options),
            "options {:?}",
            options
        );
    }
}
