use rand::rngs::StdRng;
use rand::SeedableRng;
use text_gen_ngram::model::{Generator, NGramModel};

fn words(list: &[&str]) -> Vec<String> {
    list.iter().map(|s| s.to_string()).collect()
}

fn sample_model(n: usize) -> NGramModel {
    let mut model = NGramModel::new(n);
    model.add_tokens(&words(&[
        "the", "cat", "sat", "on", "the", "mat", "and", "the", "cat", "ran", "to", "the", "dog",
    ]));
    model
}

/// Checks that `drawn` is a walk from `window`: each token follows the window
/// where the model knows the window, and some context of the model where it
/// does not. A token may follow several contexts, so every window that the
/// walk may be in is followed.
fn check_walk(model: &NGramModel, window: Vec<String>, drawn: &[String]) {
    let mut windows = vec![window];
    for token in drawn {
        let mut next: Vec<Vec<String>> = Vec::new();
        for window in &windows {
            let contexts = match model.continuations(window) {
                Some(_) => vec![window.clone()],
                None => model.contexts(),
            };
            for context in contexts {
                if model.continuations(&context).unwrap().contains(token) {
                    let mut moved = context[1..].to_vec();
                    moved.push(token.clone());
                    if !next.contains(&moved) {
                        next.push(moved);
                    }
                }
            }
        }
        assert!(!next.is_empty(), "{:?} cannot be drawn from any of {:?}", token, windows);
        windows = next;
    }
}

#[test]
fn empty_model_generates_nothing() {
    let model = NGramModel::new(2);
    let generator = Generator::new(&model);
    let mut rng = StdRng::seed_from_u64(1);
    assert_eq!(generator.generate_tokens(None, 5, &mut rng), None);
    assert_eq!(generator.generate_tokens(Some(words(&["a"])), 5, &mut rng), None);
    assert_eq!(generator.generate_tokens(Some(words(&["a", "b", "c"])), 5, &mut rng), None);
    assert_eq!(generator.generate(None, 5, &mut rng), "");
    assert_eq!(generator.generate(Some(words(&["a", "b"])), 0, &mut rng), "");
}

#[test]
fn long_seed_is_kept_and_its_end_is_the_window() {
    let model = sample_model(2);
    let generator = Generator::new(&model);
    for seed_value in 0..30u64 {
        let mut rng = StdRng::seed_from_u64(seed_value);
        let seed = words(&["x", "the", "cat"]);
        let out = generator.generate_tokens(Some(seed.clone()), 12, &mut rng).unwrap();
        assert_eq!(out.len(), 15);
        assert_eq!(&out[..3], &seed[..]);
        check_walk(&model, words(&["the", "cat"]), &out[3..]);
        assert!(out[3] == "sat" || out[3] == "ran");
    }
}

#[test]
fn seed_of_exactly_n_tokens() {
    let model = sample_model(2);
    let generator = Generator::new(&model);
    let mut rng = StdRng::seed_from_u64(8);
    let out = generator.generate_tokens(Some(words(&["sat", "on"])), 3, &mut rng).unwrap();
    assert_eq!(out[..3], words(&["sat", "on", "the"])[..]);
    assert_eq!(out.len(), 5);
}

#[test]
fn short_seed_is_kept_and_padded_from_a_context() {
    let model = sample_model(3);
    let generator = Generator::new(&model);
    for seed_value in 0..30u64 {
        let mut rng = StdRng::seed_from_u64(seed_value);
        let out = generator.generate_tokens(Some(words(&["cat"])), 6, &mut rng).unwrap();
        assert_eq!(out.len(), 7);
        assert_eq!(out[0], "cat");
        for token in &out[1..] {
            assert!(model
                .contexts()
                .iter()
                .any(|c| model.continuations(c).unwrap().contains(token)));
        }
    }
}

#[test]
fn without_a_seed_the_output_starts_with_a_context() {
    let model = sample_model(2);
    let generator = Generator::new(&model);
    for seed_value in 0..30u64 {
        let mut rng = StdRng::seed_from_u64(seed_value);
        let out = generator.generate_tokens(None, 9, &mut rng).unwrap();
        assert_eq!(out.len(), 11);
        assert!(model.contexts().contains(&out[..2].to_vec()));
        check_walk(&model, out[..2].to_vec(), &out[2..]);
    }
}

#[test]
fn unknown_window_restarts_from_a_context() {
    let model = sample_model(2);
    let generator = Generator::new(&model);
    for seed_value in 0..30u64 {
        let mut rng = StdRng::seed_from_u64(seed_value);
        let seed = words(&["never", "seen"]);
        let out = generator.generate_tokens(Some(seed.clone()), 20, &mut rng).unwrap();
        assert_eq!(out.len(), 22);
        assert_eq!(&out[..2], &seed[..]);
        check_walk(&model, seed, &out[2..]);
    }
}

#[test]
fn length_zero_returns_the_prefix() {
    let model = sample_model(2);
    let generator = Generator::new(&model);
    let mut rng = StdRng::seed_from_u64(3);
    assert_eq!(
        generator.generate_tokens(Some(words(&["a", "b", "c"])), 0, &mut rng),
        Some(words(&["a", "b", "c"]))
    );
    assert_eq!(generator.generate_tokens(Some(words(&[])), 0, &mut rng), Some(words(&[])));
    let out = generator.generate_tokens(None, 0, &mut rng).unwrap();
    assert!(model.contexts().contains(&out));
}

#[test]
fn same_seed_of_the_random_source_gives_the_same_text() {
    let model = sample_model(2);
    let generator = Generator::new(&model);
    let mut first = StdRng::seed_from_u64(77);
    let mut second = StdRng::seed_from_u64(77);
    assert_eq!(
        generator.generate(None, 25, &mut first),
        generator.generate(None, 25, &mut second)
    );
}

#[test]
fn generated_text_is_the_formatted_walk() {
    let mut model = NGramModel::new(1);
    model.add_tokens(&words(&["a", "b", "c", "a"]));
    let generator = Generator::new(&model);
    let mut rng = StdRng::seed_from_u64(5);
    assert_eq!(generator.generate(Some(words(&["a"])), 4, &mut rng), "A b c a b.");
    assert_eq!(
        generator.generate_tokens(Some(words(&["c"])), 2, &mut rng),
        Some(words(&["c", "a", "b"]))
    );
}
