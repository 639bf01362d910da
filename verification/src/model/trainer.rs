//! The trainer: from raw text to a trained model.

use crate::error::TextGenError;
use crate::model::ngram::NGramModel;
use crate::model::table::{total_occurrences, train, ContextRow};
use crate::text::processing::{
    large_text_tokens, normalize_text, normalized, tokenize_large_text, TokenizerOptions,
};
use vstd::prelude::*;

verus! {

/// Builds models of one order from text, tokenized under one set of
/// options.
pub struct Trainer {
    n: usize,
    tokenizer_options: TokenizerOptions,
}

impl Trainer {
    /// The order of the models that the trainer builds.
    pub closed spec fn order(&self) -> nat {
        self.n as nat
    }

    /// The options under which the trainer tokenizes.
    pub closed spec fn options(&self) -> TokenizerOptions {
        self.tokenizer_options
    }

    /// A trainer for models of order `n` that tokenizes with every option
    /// switched on. Whether `n` is a usable order is decided when a model
    /// is built.
    pub fn new(n: usize) -> (trainer: Self)
        ensures
            trainer.order() == n,
            trainer.options().lowercase,
            trainer.options().preserve_punctuation,
            trainer.options().preserve_sentence_boundaries,
    {
        Trainer { n, tokenizer_options: TokenizerOptions::default() }
    }

    /// The same trainer with `options` in place of its options.
    pub fn with_tokenizer_options(self, options: TokenizerOptions) -> (trainer: Self)
        ensures
            trainer.order() == self.order(),
            trainer.options() == options,
    {
        Trainer { n: self.n, tokenizer_options: options }
    }

    /// Trains a model on `text`: the text is normalized and tokenized, and
    /// a new model of the trainer's order is trained on the tokens.
    ///
    /// An order of 0 is refused with a `Model` error, whatever the text.
    /// Otherwise the call fails exactly when tokenizing does, that is when
    /// the normalized text is large and one of its chunks has to be cut
    /// inside a character, and the error is then the `Tokenization` error
    /// of the tokenizer, handed on as it is.
    pub fn train_from_text(&self, text: &str) -> (result: Result<NGramModel, TextGenError>)
        ensures
            self.order() == 0 ==> (result matches Err(TextGenError::Model(detail)) && detail@
                == "N-gram size must be at least 1"@),
            self.order() > 0 ==> match large_text_tokens(normalized(text@), self.options()) {
                Some(tokens) => result matches Ok(model) && model.order() == self.order() && model@
                    == train(Seq::<ContextRow>::empty(), self.order(), tokens)
                    && model.stats().describes(model@),
                None => result matches Err(TextGenError::Tokenization(detail)) && detail@
                    == "Invalid UTF-8 sequence in text"@,
            },
    {
        let mut model = match NGramModel::try_new(self.n) {
            Ok(model) => model,
            Err(error) => {
                return Err(error);
            },
        };
        let normalized_text = normalize_text(text);
        let tokens = match tokenize_large_text(normalized_text.as_str(), &self.tokenizer_options) {
            Ok(tokens) => tokens,
            Err(error) => {
                return Err(error);
            },
        };
        assert(total_occurrences(model@) == 0);
        assert(tokens@.len() <= usize::MAX) by {
            assert(tokens.len() == tokens@.len());
        }
        model.add_tokens(tokens.as_slice());
        Ok(model)
    }
}

} // verus!
