use rand::rngs::StdRng;
use rand::SeedableRng;
use text_gen_ngram::error::TextGenError;
use text_gen_ngram::{
    model::{Generator, NGramModel, Trainer},
    text::{tokenize, TokenizerOptions},
};

fn words(list: &[&str]) -> Vec<String> {
    list.iter().map(|s| s.to_string()).collect()
}

#[test]
fn test_end_to_end_generation() {
    let text = "The quick brown fox jumps over the lazy dog. \
                The fox is quick and brown. \
                The dog is lazy and sleeps all day.";

    let trainer = Trainer::new(2);

    let model = trainer.train_from_text(text).unwrap();

    let generator = Generator::new(&model);

    let seed = Some(vec!["The".to_string(), "fox".to_string()]);
    let mut rng = StdRng::from_os_rng();
    let generated = generator.generate(seed, 10, &mut rng);

    assert!(generated.starts_with("The fox"));

    assert!(!generated.is_empty());
}

#[test]
fn test_model_optimization() {
    let mut model = NGramModel::new(1);

    let tokens = vec![
        "a".to_string(),
        "b".to_string(),
        "a".to_string(),
        "b".to_string(),
        "a".to_string(),
        "c".to_string(),
        "a".to_string(),
        "c".to_string(),
        "a".to_string(),
        "c".to_string(),
        "a".to_string(),
        "c".to_string(),
    ];

    model.add_tokens(&tokens);

    let initial_total_tokens = model.get_stats().total_tokens;

    model.optimize();

    let optimized_stats = model.get_stats();

    assert_eq!(initial_total_tokens, optimized_stats.total_tokens);
}

#[test]
fn test_tokenization_options() {
    let text = "Hello, world! This is a test.";

    let default_options = TokenizerOptions::default();
    let default_tokens = tokenize(text, &default_options);

    let custom_options = TokenizerOptions {
        lowercase: false,
        preserve_punctuation: false,
        preserve_sentence_boundaries: false,
    };
    let custom_tokens = tokenize(text, &custom_options);

    assert!(default_tokens.contains(&",".to_string()));
    assert!(default_tokens.contains(&"hello".to_string()));

    assert!(!custom_tokens.contains(&",".to_string()));
    assert!(custom_tokens.contains(&"Hello".to_string()));
}

#[test]
fn trainer_normalizes_tokenizes_and_trains() {
    let model = Trainer::new(2)
        .train_from_text("  The cat   sat.\n\nThe cat ran.  ")
        .unwrap();
    assert_eq!(model.n(), 2);
    // the cat sat. <sentence> the cat ran .
    assert_eq!(
        model.continuations(&words(&["the", "cat"])),
        Some(words(&["sat.", "ran"]))
    );
    assert_eq!(
        model.continuations(&words(&["sat.", "<sentence>"])),
        Some(words(&["the"]))
    );
    assert_eq!(model.get_stats().total_tokens, 6);
}

#[test]
fn trainer_uses_its_options() {
    let options = TokenizerOptions {
        lowercase: false,
        preserve_punctuation: false,
        preserve_sentence_boundaries: false,
    };
    let model = Trainer::new(1)
        .with_tokenizer_options(options)
        .train_from_text("The cat, the Dog")
        .unwrap();
    assert_eq!(model.contexts(), vec![words(&["The"]), words(&["cat"]), words(&["the"])]);
    assert_eq!(model.continuations(&words(&["the"])), Some(words(&["Dog"])));
}

#[test]
fn trainer_refuses_order_zero() {
    match Trainer::new(0).train_from_text("some text here") {
        Err(TextGenError::Model(_)) => {}
        _ => panic!("an order of 0 must be refused with a model error"),
    }
}

#[test]
fn trainer_reports_a_character_cut_in_two() {
    let mut text = "a".repeat(99_999);
    text.push('é');
    text.push_str(&" b".repeat(500_000));
    match Trainer::new(2).train_from_text(&text) {
        Err(TextGenError::Tokenization(_)) => {}
        _ => panic!("a character across a cut must be reported"),
    }
}

#[test]
fn training_on_short_text_gives_an_empty_model() {
    let model = Trainer::new(3).train_from_text("one two three").unwrap();
    assert!(model.is_empty());
    let generator = Generator::new(&model);
    let mut rng = StdRng::seed_from_u64(4);
    assert_eq!(generator.generate(None, 10, &mut rng), "");
}

#[test]
fn trainer_hands_the_tokenizing_error_on_as_it_is() {
    let text = "\u{65e5}".repeat(400_000);
    match Trainer::new(2).train_from_text(&text) {
        Err(TextGenError::Tokenization(detail)) => {
            assert_eq!(detail, "Invalid UTF-8 sequence in text")
        }
        _ => panic!("a chunk cut inside a character must be reported"),
    }
    match Trainer::new(0).train_from_text("some text") {
        Err(TextGenError::Model(detail)) => assert_eq!(detail, "N-gram size must be at least 1"),
        _ => panic!("an order of 0 must be refused"),
    }
}

#[test]
fn trainer_trains_on_a_large_text_as_on_its_tokens() {
    let text = "The cat sat. It was  happy! ".repeat(40_000);
    assert!(text.len() > 1_000_000);
    let model = Trainer::new(2).train_from_text(&text).unwrap();
    let mut direct = NGramModel::new(2);
    direct.add_tokens(&tokenize(&text, &TokenizerOptions::default()));
    assert_eq!(model.contexts(), direct.contexts());
    assert_eq!(model.get_stats(), direct.get_stats());
    assert_eq!(
        model.continuations(&words(&["the", "cat"])),
        direct.continuations(&words(&["the", "cat"]))
    );
}
