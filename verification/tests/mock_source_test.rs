use rand::rngs::StdRng;
use rand::SeedableRng;
use text_gen_ngram::error::TextGenError;
use text_gen_ngram::model::{Generator, Trainer};
use text_gen_ngram::text::processing::split_whitespace;

// A source that returns predefined text
struct MockSource {
    text: String,
}

impl MockSource {
    fn new(text: &str) -> Self {
        Self {
            text: text.to_string(),
        }
    }

    fn fetch_text(&self) -> Result<String, TextGenError> {
        Ok(self.text.clone())
    }
}

#[test]
fn test_end_to_end_with_mock() {
    let text = "The quick brown fox jumps over the lazy dog. The fox is quick and brown.";
    let scraper = MockSource::new(text);

    let scraped_text = scraper.fetch_text().unwrap();

    let trainer = Trainer::new(2);
    let model = trainer.train_from_text(&scraped_text).unwrap();

    let generator = Generator::new(&model);
    let seed = Some(vec!["The".to_string(), "fox".to_string()]);
    let mut rng = StdRng::from_os_rng();
    let generated = generator.generate(seed, 10, &mut rng);

    assert!(generated.starts_with("The fox"));
    assert!(!generated.is_empty());
}

#[test]
fn seed_text_is_cut_at_whitespace() {
    assert_eq!(
        split_whitespace("  Once upon\ta\u{2003}time \n"),
        vec!["Once", "upon", "a", "time"]
    );
    assert_eq!(split_whitespace("it's  here."), vec!["it's", "here."]);
    assert!(split_whitespace("").is_empty());
    assert!(split_whitespace(" \t ").is_empty());
}
