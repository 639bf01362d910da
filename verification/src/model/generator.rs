//! The generator: a random walk through a trained model, and its
//! rendering as prose.

use crate::model::format::{ends_sentence, format_tokens, formatted};
use crate::model::ngram::NGramModel;
use crate::model::store::clone_tokens;
use crate::model::table::continuations_of;
use crate::model::walk::{
    draws, explains, first_window, is_generation, is_walk, lemma_row_is_known, prefix_of, slide,
    window_before,
};
use crate::text::chars::tokens_of;
use vstd::prelude::*;
use vstd::slice::slice_subrange;

verus! {

/// Generates text from a model that it only reads.
pub struct Generator<'a> {
    model: &'a NGramModel,
}

/// The seed of a generation as tokens, if there is one.
pub open spec fn seed_tokens(seed: Option<Vec<String>>) -> Option<Seq<Seq<char>>> {
    match seed {
        Some(words) => Some(tokens_of(words@)),
        None => None,
    }
}

impl<'a> Generator<'a> {
    /// The model that the generator reads.
    pub closed spec fn model(&self) -> &NGramModel {
        self.model
    }

    /// A generator for `model`.
    pub fn new(model: &'a NGramModel) -> (generator: Self)
        ensures
            generator.model() == model,
    {
        Generator { model }
    }

    /// Generates `length` tokens after the seed and returns them behind
    /// it.
    ///
    /// The walk begins in a window of `n` tokens. Without a seed, a context
    /// of the model is drawn, which is both the window and the start of
    /// the output. A seed of `n` tokens or more starts the output, and its
    /// last `n` tokens are the window. A shorter seed starts the output
    /// too; the window is then a drawn context with the seed written over
    /// its last tokens. Each step draws a recorded continuation of the
    /// window and moves the window on by one token; where the model does
    /// not know the window, the step draws a new context first and goes on
    /// from there. A model without contexts generates nothing: the result
    /// is `None` then, and only then.
    pub fn generate_tokens(
        &self,
        seed: Option<Vec<String>>,
        length: usize,
        rng: &mut rand::rngs::StdRng,
    ) -> (out: Option<Vec<String>>)
        ensures
            out is None <==> self.model()@.len() == 0,
            out matches Some(tokens) ==> is_generation(
                self.model()@,
                self.model().order(),
                seed_tokens(seed),
                length as nat,
                tokens_of(tokens@),
            ),
            out matches Some(tokens) ==> seed matches Some(words) ==> tokens@.len() == words@.len()
                + length && tokens_of(tokens@).take(words@.len() as int) == tokens_of(words@),
    {
        let ghost table = self.model@;
        let ghost given = seed_tokens(seed);
        let n = self.model.n();
        if self.model.is_empty() {
            return None;
        }
        let ghost mut start: Seq<Seq<char>> = table[0].context;
        proof {
            lemma_row_is_known(table, 0);
        }
        let mut result: Vec<String>;
        let mut window: Vec<String>;
        match seed {
            Some(words) => {
                if words.len() >= n {
                    window = clone_tokens(
                        slice_subrange(words.as_slice(), words.len() - n, words.len()),
                    );
                    assert(tokens_of(window@) =~= first_window(given, start, n as nat));
                } else {
                    window = match self.model.random_context(rng) {
                        Some(drawn) => drawn,
                        None => {
                            return None;
                        },
                    };
                    proof {
                        start = tokens_of(window@);
                    }
                    let kept = n - words.len();
                    let mut i: usize = 0;
                    assert(tokens_of(window@) =~= start.take(kept as int) + tokens_of(
                        words@,
                    ).take(0) + start.skip(kept as int));
                    while i < words.len()
                        invariant
                            kept + words@.len() == n,
                            window@.len() == n,
                            i <= words@.len(),
                            tokens_of(window@) == start.take(kept as int) + tokens_of(words@).take(
                                i as int,
                            ) + start.skip(kept + i),
                            start.len() == n,
                        decreases words.len() - i,
                    {
                        let ghost before = tokens_of(window@);
                        window[kept + i] = words[i].clone();
                        assert(tokens_of(window@) =~= start.take(kept as int) + tokens_of(
                            words@,
                        ).take(i + 1) + start.skip(kept + i + 1)) by {
                            assert(tokens_of(window@) =~= before.update(
                                kept + i,
                                words@[i as int]@,
                            ));
                        }
                        i += 1;
                    }
                    assert(tokens_of(window@) =~= start.take(kept as int) + tokens_of(words@));
                }
                result = words;
            },
            None => {
                window = match self.model.random_context(rng) {
                    Some(drawn) => drawn,
                    None => {
                        return None;
                    },
                };
                proof {
                    start = tokens_of(window@);
                }
                result = clone_tokens(window.as_slice());
            },
        }
        let ghost prefix = prefix_of(given, start);
        let ghost first = first_window(given, start, n as nat);
        let ghost mut contexts: Seq<Seq<Seq<char>>> = Seq::empty();
        let mut generated: usize = 0;
        assert(tokens_of(result@).take(prefix.len() as int) =~= prefix);
        while generated < length
            invariant
                table == self.model@,
                table.len() > 0,
                n == self.model.order(),
                n >= 1,
                generated <= length,
                window@.len() == n,
                tokens_of(result@).len() == prefix.len() + generated,
                tokens_of(result@).take(prefix.len() as int) == prefix,
                is_walk(table, first, contexts, tokens_of(result@).skip(prefix.len() as int)),
                continuations_of(
                    table,
                    window_before(
                        first,
                        contexts,
                        tokens_of(result@).skip(prefix.len() as int),
                        generated as int,
                    ),
                ) is Some ==> tokens_of(window@) == window_before(
                    first,
                    contexts,
                    tokens_of(result@).skip(prefix.len() as int),
                    generated as int,
                ),
                tokens_of(window@) != window_before(
                    first,
                    contexts,
                    tokens_of(result@).skip(prefix.len() as int),
                    generated as int,
                ) ==> continuations_of(table, tokens_of(window@)) is Some,
            ensures
                generated == length,
            decreases
                    length - generated,
                    (if continuations_of(table, tokens_of(window@)) is Some {
                        0int
                    } else {
                        1int
                    }),
        {
            match self.model.predict_next(window.as_slice(), rng) {
                Some(token) => {
                    let ghost context = tokens_of(window@);
                    let ghost before = tokens_of(result@);
                    let ghost walked = before.skip(prefix.len() as int);
                    result.push(token.clone());
                    let _ = window.remove(0);
                    window.push(token);
                    proof {
                        let longer = tokens_of(result@);
                        let walked_on = longer.skip(prefix.len() as int);
                        let more = contexts.push(context);
                        assert(longer =~= before.push(token@));
                        assert(walked_on =~= walked.push(token@));
                        assert(longer.take(prefix.len() as int) =~= before.take(
                            prefix.len() as int,
                        ));
                        assert(tokens_of(window@) =~= slide(context, token@));
                        assert forall|k: int| 0 <= k < walked_on.len() implies #[trigger] draws(
                            table,
                            window_before(first, more, walked_on, k),
                            more[k],
                            walked_on[k],
                        ) by {
                            if k < walked.len() {
                                assert(draws(
                                    table,
                                    window_before(first, contexts, walked, k),
                                    contexts[k],
                                    walked[k],
                                ));
                                assert(window_before(first, more, walked_on, k) == window_before(
                                    first,
                                    contexts,
                                    walked,
                                    k,
                                ));
                            }
                        }
                        contexts = more;
                    }
                    generated += 1;
                },
                None => {
                    match self.model.random_context(rng) {
                        Some(context) => {
                            window = context;
                        },
                        None => {
                            break;
                        },
                    }
                },
            }
        }
        proof {
            assert(explains(
                table,
                n as nat,
                given,
                length as nat,
                tokens_of(result@),
                start,
                contexts,
            ));
        }
        Some(result)
    }

    /// Generates `length` tokens after the seed, as `generate_tokens`
    /// does, and renders seed and tokens as prose. A model without
    /// contexts generates nothing: the result is the empty text then, which
    /// no generation gives.
    pub fn generate(
        &self,
        seed: Option<Vec<String>>,
        length: usize,
        rng: &mut rand::rngs::StdRng,
    ) -> (text: String)
        ensures
            self.model()@.len() == 0 ==> text@.len() == 0,
            self.model()@.len() > 0 ==> exists|tokens: Seq<Seq<char>>|
                #![trigger formatted(tokens)]
                is_generation(
                    self.model()@,
                    self.model().order(),
                    seed_tokens(seed),
                    length as nat,
                    tokens,
                ) && text@ == formatted(tokens),
            self.model()@.len() > 0 ==> ends_sentence(text@),
    {
        match self.generate_tokens(seed, length, rng) {
            Some(tokens) => self.format_generated_text(tokens.as_slice()),
            None => String::new(),
        }
    }

    /// Renders `tokens` as prose, as `format_tokens` does.
    pub fn format_generated_text(&self, tokens: &[String]) -> (text: String)
        ensures
            text@ == formatted(tokens_of(tokens@)),
            ends_sentence(text@),
    {
        format_tokens(tokens)
    }
}

} // verus!
