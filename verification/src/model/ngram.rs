//! The n-gram model: a table of contexts and their continuations, kept
//! together with statistics that always describe it.

use crate::error::TextGenError;
use crate::model::store::{clone_tokens, rows_of, ContextEntry, ContextStore};
use crate::model::table::{
    continuations_of, distinct_continuations, expand, first_seen, frequent, group_table, grouped,
    largest_row, lemma_group_table, lemma_grouped, lemma_occurrences, lemma_occurrences_push,
    lemma_position, lemma_prefix_bounds, lemma_prune_rows, lemma_push_row, lemma_record,
    lemma_total_push,
    occurrences, prune_table, repeated, total_occurrences, train, well_formed, window_count,
    ContextRow,
};
use crate::model::walk::{is_chain, lemma_chain_push, lemma_row_is_known, window_after};
use crate::random::pick;
use crate::text::chars::tokens_of;
use vstd::hash_map::StringHashMap;
use vstd::hash_set::StringHashSet;
use vstd::prelude::*;
use vstd::slice::slice_subrange;

verus! {

/// Figures that describe a table. They are derived from it and never
/// authoritative.
#[derive(Clone, Copy, Debug, PartialEq, Eq, Structural)]
pub struct ModelStats {
    /// The number of occurrences: the sum of the lengths of all rows.
    pub total_tokens: usize,
    /// The number of contexts.
    pub unique_contexts: usize,
    /// The sum over the contexts of the number of distinct tokens behind each.
    pub unique_continuations: usize,
    /// The length of the longest row.
    pub largest_continuation_set: usize,
}

impl ModelStats {
    /// Whether these are the figures of `table`.
    pub open spec fn describes(&self, table: Seq<ContextRow>) -> bool {
        &&& self.total_tokens == total_occurrences(table)
        &&& self.unique_contexts == table.len()
        &&& self.unique_continuations == distinct_continuations(table)
        &&& self.largest_continuation_set == largest_row(table)
    }
}

impl Default for ModelStats {
    fn default() -> (stats: Self)
        ensures
            stats.total_tokens == 0,
            stats.unique_contexts == 0,
            stats.unique_continuations == 0,
            stats.largest_continuation_set == 0,
    {
        ModelStats {
            total_tokens: 0,
            unique_contexts: 0,
            unique_continuations: 0,
            largest_continuation_set: 0,
        }
    }
}

/// The tokens that an optional token list stands for: none, if there is no
/// list.
pub open spec fn given_tokens(words: Option<Vec<String>>) -> Seq<Seq<char>> {
    match words {
        Some(list) => tokens_of(list@),
        None => Seq::empty(),
    }
}

/// The number of distinct tokens in `tokens`.
fn count_distinct(tokens: &Vec<String>) -> (count: usize)
    ensures
        count == tokens_of(tokens@).to_set().len(),
{
    let mut seen = StringHashSet::new();
    let mut i: usize = 0;
    while i < tokens.len()
        invariant
            i <= tokens@.len(),
            seen@ == tokens_of(tokens@).take(i as int).to_set(),
        decreases tokens.len() - i,
    {
        let _ = seen.insert(tokens[i].clone());
        proof {
            let all = tokens_of(tokens@);
            assert(all.take(i + 1) =~= all.take(i as int).push(all[i as int]));
            all.take(i as int).lemma_push_to_set_commute(all[i as int]);
        }
        i += 1;
    }
    assert(tokens_of(tokens@).take(i as int) =~= tokens_of(tokens@));
    seen.len()
}

/// The figures of the table that `entries` stands for.
fn compute_stats(entries: &Vec<ContextEntry>) -> (stats: ModelStats)
    requires
        total_occurrences(rows_of(entries@)) <= usize::MAX,
    ensures
        stats.describes(rows_of(entries@)),
{
    let ghost table = rows_of(entries@);
    let mut total: usize = 0;
    let mut distinct: usize = 0;
    let mut largest: usize = 0;
    let mut i: usize = 0;
    while i < entries.len()
        invariant
            table == rows_of(entries@),
            total_occurrences(table) <= usize::MAX,
            i <= entries@.len(),
            total == total_occurrences(table.take(i as int)),
            distinct == distinct_continuations(table.take(i as int)),
            largest == largest_row(table.take(i as int)),
        decreases entries.len() - i,
    {
        proof {
            assert(table.take(i + 1).drop_last() =~= table.take(i as int));
            lemma_prefix_bounds(table, i + 1);
            lemma_prefix_bounds(table.take(i + 1), 0);
        }
        let row_len = entries[i].continuations.len();
        let row_distinct = count_distinct(&entries[i].continuations);
        total = total + row_len;
        distinct = distinct + row_distinct;
        if row_len > largest {
            largest = row_len;
        }
        i += 1;
    }
    assert(table.take(i as int) =~= table);
    ModelStats {
        total_tokens: total,
        unique_contexts: entries.len(),
        unique_continuations: distinct,
        largest_continuation_set: largest,
    }
}

/// For each token of `tokens`, how often it occurs there.
pub(crate) fn count_tokens(tokens: &Vec<String>) -> (counts: StringHashMap<usize>)
    ensures
        forall|t: Seq<char>|
            counts@.contains_key(t) <==> occurrences(tokens_of(tokens@), t) > 0,
        forall|t: Seq<char>|
            counts@.contains_key(t) ==> counts@[t] == occurrences(tokens_of(tokens@), t),
{
    let ghost all = tokens_of(tokens@);
    let mut counts: StringHashMap<usize> = StringHashMap::new();
    let mut i: usize = 0;
    while i < tokens.len()
        invariant
            all == tokens_of(tokens@),
            i <= tokens@.len(),
            forall|t: Seq<char>|
                counts@.contains_key(t) <==> occurrences(all.take(i as int), t) > 0,
            forall|t: Seq<char>|
                counts@.contains_key(t) ==> counts@[t] == occurrences(all.take(i as int), t),
        decreases tokens.len() - i,
    {
        let ghost seen = all.take(i as int);
        let so_far: usize = match counts.get(tokens[i].as_str()) {
            Some(count) => *count,
            None => 0,
        };
        proof {
            lemma_occurrences(seen, all[i as int]);
            assert(all.take(i + 1) =~= seen.push(all[i as int]));
            assert forall|t: Seq<char>|
                occurrences(all.take(i + 1), t) == occurrences(seen, t) + if all[i as int] == t {
                    1nat
                } else {
                    0nat
                } by {
                lemma_occurrences_push(seen, all[i as int], t);
            }
        }
        counts.insert(tokens[i].clone(), so_far + 1);
        i += 1;
    }
    assert(all.take(i as int) =~= all);
    counts
}

/// The tokens of `tokens` that occur in it at least `min` times.
fn keep_frequent(tokens: &Vec<String>, min: usize) -> (kept: Vec<String>)
    ensures
        tokens_of(kept@) == frequent(tokens_of(tokens@), min as nat),
        kept@.len() <= tokens@.len(),
{
    let ghost all = tokens_of(tokens@);
    let ghost pred = |t: Seq<char>| occurrences(all, t) >= min as nat;
    let counts = count_tokens(tokens);
    let mut kept: Vec<String> = Vec::new();
    let mut i: usize = 0;
    assert(all.take(0).filter(pred) =~= Seq::<Seq<char>>::empty()) by {
        reveal(Seq::filter);
    }
    while i < tokens.len()
        invariant
            all == tokens_of(tokens@),
            pred == |t: Seq<char>| occurrences(all, t) >= min as nat,
            i <= tokens@.len(),
            kept@.len() <= i,
            tokens_of(kept@) == all.take(i as int).filter(pred),
            forall|t: Seq<char>| counts@.contains_key(t) <==> occurrences(all, t) > 0,
            forall|t: Seq<char>| counts@.contains_key(t) ==> counts@[t] == occurrences(all, t),
        decreases tokens.len() - i,
    {
        let count: usize = match counts.get(tokens[i].as_str()) {
            Some(count) => *count,
            None => 0,
        };
        proof {
            assert(all.take(i + 1) =~= all.take(i as int).push(all[i as int]));
            all.take(i as int).lemma_filter_push(all[i as int], pred);
        }
        if count >= min {
            kept.push(tokens[i].clone());
            assert(tokens_of(kept@) =~= all.take(i as int).filter(pred).push(all[i as int]));
        }
        i += 1;
    }
    assert(all.take(i as int) =~= all);
    kept
}

/// The distinct tokens of `tokens`, in the order of their first occurrence.
pub(crate) fn distinct_in_order(tokens: &Vec<String>) -> (order: Vec<String>)
    ensures
        tokens_of(order@) == first_seen(tokens_of(tokens@)),
{
    let ghost all = tokens_of(tokens@);
    let mut order: Vec<String> = Vec::new();
    let mut seen = StringHashSet::new();
    let mut i: usize = 0;
    assert(tokens_of(order@) =~= first_seen(all.take(0)));
    while i < tokens.len()
        invariant
            all == tokens_of(tokens@),
            i <= tokens@.len(),
            tokens_of(order@) == first_seen(all.take(i as int)),
            forall|t: Seq<char>| seen@.contains(t) <==> first_seen(all.take(i as int)).contains(t),
        decreases tokens.len() - i,
    {
        let ghost before = first_seen(all.take(i as int));
        proof {
            assert(all.take(i + 1).drop_last() =~= all.take(i as int));
        }
        if !seen.contains(tokens[i].as_str()) {
            let _ = seen.insert(tokens[i].clone());
            order.push(tokens[i].clone());
            proof {
                assert(tokens_of(order@) =~= before.push(all[i as int]));
                assert forall|t: Seq<char>| seen@.contains(t) <==> before.push(
                    all[i as int],
                ).contains(t) by {
                    if before.contains(t) {
                        let k = choose|k: int| 0 <= k < before.len() && before[k] == t;
                        assert(before.push(all[i as int])[k] == t);
                    }
                    assert(before.push(all[i as int])[before.len() as int] == all[i as int]);
                }
            }
        }
        i += 1;
    }
    assert(all.take(i as int) =~= all);
    order
}

/// The tokens of `tokens` with equal tokens brought together.
fn group_tokens(tokens: &Vec<String>) -> (out: Vec<String>)
    ensures
        tokens_of(out@) == grouped(tokens_of(tokens@)),
        out@.len() == tokens@.len(),
{
    let ghost all = tokens_of(tokens@);
    let counts = count_tokens(tokens);
    let order = distinct_in_order(tokens);
    let ghost listed = tokens_of(order@);
    let mut out: Vec<String> = Vec::new();
    let mut k: usize = 0;
    assert(tokens_of(out@) =~= expand(listed.take(0), all));
    while k < order.len()
        invariant
            all == tokens_of(tokens@),
            listed == tokens_of(order@),
            k <= order@.len(),
            tokens_of(out@) == expand(listed.take(k as int), all),
            forall|t: Seq<char>| counts@.contains_key(t) <==> occurrences(all, t) > 0,
            forall|t: Seq<char>| counts@.contains_key(t) ==> counts@[t] == occurrences(all, t),
        decreases order.len() - k,
    {
        let count: usize = match counts.get(order[k].as_str()) {
            Some(count) => *count,
            None => 0,
        };
        let ghost done = expand(listed.take(k as int), all);
        let mut m: usize = 0;
        assert(tokens_of(out@) =~= done + repeated(listed[k as int], 0));
        while m < count
            invariant
                listed == tokens_of(order@),
                k < order@.len(),
                m <= count,
                tokens_of(out@) == done + repeated(listed[k as int], m as nat),
            decreases count - m,
        {
            let ghost emitted = tokens_of(out@);
            out.push(order[k].clone());
            assert(tokens_of(out@) =~= emitted.push(listed[k as int]));
            assert(emitted.push(listed[k as int]) =~= done + repeated(
                listed[k as int],
                (m + 1) as nat,
            ));
            m += 1;
        }
        proof {
            assert(listed.take(k + 1).drop_last() =~= listed.take(k as int));
        }
        k += 1;
    }
    proof {
        assert(listed.take(k as int) =~= listed);
        lemma_grouped(all);
    }
    out
}

/// Whether a table can be the table of a model of order `n`: the order is
/// at least 1, the table is well formed for it, and the number of its
/// occurrences fits the machine's word.
pub open spec fn acceptable(table: Seq<ContextRow>, n: nat) -> bool {
    &&& n >= 1
    &&& well_formed(table, n)
    &&& total_occurrences(table) <= usize::MAX
}

/// An n-gram model of order `n`: for each context of `n` tokens seen in
/// training, the tokens that followed it, one entry per occurrence.
///
/// Every model is well formed for its order (each context has `n` tokens,
/// no context is stored twice, no context is stored without a continuation)
/// and carries statistics that describe its table as it is.
pub struct NGramModel {
    n: usize,
    store: ContextStore,
    stats: ModelStats,
}

impl View for NGramModel {
    type V = Seq<ContextRow>;

    closed spec fn view(&self) -> Seq<ContextRow> {
        self.store@
    }
}

impl NGramModel {
    #[verifier::type_invariant]
    pub(crate) closed spec fn consistent(&self) -> bool {
        &&& self.n >= 1
        &&& self.store.indexed()
        &&& well_formed(self.store@, self.n as nat)
        &&& self.stats.describes(self.store@)
    }

    /// The number of tokens in a context.
    pub closed spec fn order(&self) -> nat {
        self.n as nat
    }

    /// The statistics that the model carries.
    pub closed spec fn stats(&self) -> ModelStats {
        self.stats
    }

    /// An empty model of order `n`.
    pub fn new(n: usize) -> (model: Self)
        requires
            n >= 1,
        ensures
            model.order() == n,
            model@ == Seq::<ContextRow>::empty(),
            model.stats().describes(model@),
    {
        NGramModel { n, store: ContextStore::new(), stats: ModelStats::default() }
    }

    /// An empty model of order `n`, or a `Model` error if `n` is 0: a context
    /// has at least one token.
    pub fn try_new(n: usize) -> (result: Result<Self, TextGenError>)
        ensures
            match result {
                Ok(model) => n >= 1 && model.order() == n && model@ == Seq::<ContextRow>::empty()
                    && model.stats().describes(model@),
                Err(error) => n == 0 && (error matches TextGenError::Model(detail) && detail@
                    == "N-gram size must be at least 1"@),
            },
    {
        if n == 0 {
            Err(TextGenError::Model("N-gram size must be at least 1".to_owned()))
        } else {
            Ok(NGramModel::new(n))
        }
    }

    /// The model of order `n` whose table is given row by row. The
    /// statistics are computed from the rows. The rows are refused with a
    /// `Model` error if they are not the table of a model: if `n` is 0, if
    /// a context has not `n` tokens, if a context comes twice or has no
    /// continuation, or if the occurrences are more than the machine's word
    /// can count.
    pub fn from_entries(n: usize, entries: &Vec<ContextEntry>) -> (result: Result<
        Self,
        TextGenError,
    >)
        ensures
            match result {
                Ok(model) => acceptable(rows_of(entries@), n as nat) && model.order() == n
                    && model@ == rows_of(entries@) && model.stats().describes(model@),
                Err(error) => !acceptable(rows_of(entries@), n as nat) && error is Model,
            },
    {
        if n == 0 {
            return Err(TextGenError::Model("N-gram size must be at least 1".to_owned()));
        }
        let ghost table = rows_of(entries@);
        let mut store = ContextStore::new();
        let mut total: usize = 0;
        let mut i: usize = 0;
        assert(store@ =~= table.take(0));
        while i < entries.len()
            invariant
                n >= 1,
                table == rows_of(entries@),
                i <= entries@.len(),
                store.indexed(),
                store@ == table.take(i as int),
                well_formed(store@, n as nat),
                total == total_occurrences(store@),
            decreases entries.len() - i,
        {
            let entry = &entries[i];
            proof {
                assert(table.take(i + 1).drop_last() =~= table.take(i as int));
                lemma_prefix_bounds(table, i + 1);
                lemma_position(store@, table[i as int].context);
            }
            if entry.context.len() != n {
                assert(table[i as int].context.len() != n);
                return Err(
                    TextGenError::Model("A context has the wrong number of tokens".to_owned()),
                );
            }
            if entry.continuations.len() == 0 {
                assert(table[i as int].continuations.len() == 0);
                return Err(TextGenError::Model("A context has no continuation".to_owned()));
            }
            match store.find(entry.context.as_slice()) {
                Some(earlier) => {
                    assert(table[earlier as int].context == table[i as int].context) by {
                        assert(table.take(i as int)[earlier as int] == table[earlier as int]);
                    }
                    return Err(TextGenError::Model("A context is given twice".to_owned()));
                },
                None => {},
            }
            if entry.continuations.len() > usize::MAX - total {
                return Err(TextGenError::Model("The model holds too many occurrences".to_owned()));
            }
            total = total + entry.continuations.len();
            let context = clone_tokens(entry.context.as_slice());
            let continuations = clone_tokens(entry.continuations.as_slice());
            proof {
                lemma_push_row(store@, n as nat, table[i as int]);
            }
            store.push_row(context, continuations);
            assert(store@ =~= table.take(i + 1));
            i += 1;
        }
        assert(table.take(i as int) =~= table);
        let stats = compute_stats(store.entries());
        Ok(NGramModel { n, store, stats })
    }

    /// The number of tokens in a context.
    pub fn n(&self) -> (n: usize)
        ensures
            n == self.order(),
            n >= 1,
    {
        proof {
            use_type_invariant(self);
        }
        self.n
    }

    /// Tells whether the model holds no context.
    pub fn is_empty(&self) -> (empty: bool)
        ensures
            empty == (self@.len() == 0),
    {
        self.store.len() == 0
    }

    /// The number of contexts that the model holds.
    pub fn context_count(&self) -> (count: usize)
        ensures
            count == self@.len(),
    {
        self.store.len()
    }

    /// The rows of the model, in the order in which training met their
    /// contexts first.
    pub fn entries(&self) -> (entries: &Vec<ContextEntry>)
        ensures
            rows_of(entries@) == self@,
            acceptable(self@, self.order()),
    {
        proof {
            use_type_invariant(self);
        }
        self.store.entries()
    }

    /// The contexts of the model, in the order in which training met them
    /// first.
    pub fn contexts(&self) -> (list: Vec<Vec<String>>)
        ensures
            list@.len() == self@.len(),
            forall|i: int|
                0 <= i < list@.len() ==> tokens_of((#[trigger] list@[i])@) == self@[i].context,
    {
        let entries = self.store.entries();
        let mut list: Vec<Vec<String>> = Vec::new();
        let mut i: usize = 0;
        while i < entries.len()
            invariant
                i <= entries@.len(),
                list@.len() == i,
                forall|j: int|
                    0 <= j < i ==> tokens_of((#[trigger] list@[j])@) == rows_of(
                        entries@,
                    )[j].context,
            decreases entries.len() - i,
        {
            list.push(clone_tokens(entries[i].context.as_slice()));
            i += 1;
        }
        list
    }

    /// The continuations recorded for the context `key`, one entry per
    /// occurrence, or `None` if the model does not know `key`.
    pub fn continuations(&self, key: &[String]) -> (found: Option<Vec<String>>)
        ensures
            match continuations_of(self@, tokens_of(key@)) {
                Some(recorded) => found matches Some(list) && tokens_of(list@) == recorded,
                None => found is None,
            },
    {
        proof {
            use_type_invariant(self);
        }
        match self.store.find(key) {
            Some(i) => Some(clone_tokens(self.store.entries()[i].continuations.as_slice())),
            None => None,
        }
    }

    /// The statistics of the model as it is now.
    pub fn get_stats(&self) -> (stats: &ModelStats)
        ensures
            *stats == self.stats(),
            stats.describes(self@),
    {
        proof {
            use_type_invariant(self);
        }
        &self.stats
    }

    /// Recomputes the statistics from the table. The table is left as it is.
    pub fn update_stats(&mut self)
        ensures
            final(self).order() == old(self).order(),
            final(self)@ == old(self)@,
            final(self).stats().describes(final(self)@),
    {
        proof {
            use_type_invariant(&*self);
        }
        let stats = compute_stats(self.store.entries());
        self.stats = stats;
    }

    /// Trains on `tokens`: each window of `n + 1` consecutive tokens, taken
    /// from left to right, adds its last token to the continuations of its
    /// first `n`. A sequence of `n` tokens or fewer adds nothing.
    pub fn add_tokens(&mut self, tokens: &[String])
        requires
            total_occurrences(old(self)@) + tokens@.len() <= usize::MAX,
        ensures
            final(self).order() == old(self).order(),
            final(self)@ == train(old(self)@, old(self).order(), tokens_of(tokens@)),
            well_formed(final(self)@, final(self).order()),
            total_occurrences(final(self)@) == total_occurrences(old(self)@) + window_count(
                tokens@.len(),
                old(self).order(),
            ),
            final(self).stats().describes(final(self)@),
    {
        proof {
            use_type_invariant(&*self);
        }
        let n = self.n;
        let mut taken = NGramModel::new(n);
        std::mem::swap(self, &mut taken);
        let NGramModel { n: _, store, stats: _ } = taken;
        let mut store = store;
        let ghost before = store@;
        let ghost all = tokens_of(tokens@);
        if tokens.len() > n {
            let windows = tokens.len() - n;
            let mut i: usize = 0;
            while i < windows
                invariant
                    n >= 1,
                    n < tokens@.len() <= usize::MAX,
                    windows == tokens@.len() - n,
                    i <= windows,
                    all == tokens_of(tokens@),
                    store.indexed(),
                    well_formed(store@, n as nat),
                    store@ == train(before, n as nat, all.take(i + n)),
                    total_occurrences(store@) == total_occurrences(before) + i,
                decreases windows - i,
            {
                let key = slice_subrange(tokens, i, i + n);
                let token = tokens[i + n].clone();
                proof {
                    let seen = all.take(i + n + 1);
                    assert(seen.drop_last() =~= all.take(i + n));
                    assert(seen.subrange(i as int, i + n) =~= tokens_of(key@));
                    lemma_record(store@, n as nat, tokens_of(key@), token@);
                }
                store.record(key, token);
                i += 1;
            }
            assert(all.take(i + n) =~= all);
        }
        let stats = compute_stats(store.entries());
        *self = NGramModel { n, store, stats };
    }

    /// Draws the token to follow the context `key`: one of the recorded
    /// continuations of `key`, each occurrence being equally likely, so
    /// that a token is drawn in proportion to how often it followed `key`
    /// in training. `None` exactly when the model does not know `key`.
    pub fn predict_next(&self, key: &[String], rng: &mut rand::rngs::StdRng) -> (next: Option<
        String,
    >)
        ensures
            match continuations_of(self@, tokens_of(key@)) {
                Some(continuations) => next matches Some(token) && continuations.contains(token@),
                None => next is None,
            },
    {
        proof {
            use_type_invariant(self);
        }
        let entries = self.store.entries();
        match self.store.find(key) {
            Some(i) => {
                match pick(entries[i].continuations.as_slice(), rng) {
                    Some(token) => {
                        proof {
                            let drawn = choose|k: int|
                                0 <= k < entries@[i as int].continuations@.len()
                                    && entries@[i as int].continuations@[k] == *token;
                            assert(self@[i as int].continuations[drawn] == token@);
                        }
                        Some(token.clone())
                    },
                    None => None,
                }
            },
            None => None,
        }
    }

    /// Draws one of the contexts of the model, each being equally likely.
    /// `None` exactly when the model holds no context.
    pub fn random_context(&self, rng: &mut rand::rngs::StdRng) -> (context: Option<Vec<String>>)
        ensures
            context is Some <==> self@.len() > 0,
            context matches Some(drawn) ==> drawn@.len() == self.order() && continuations_of(
                self@,
                tokens_of(drawn@),
            ) is Some,
    {
        proof {
            use_type_invariant(self);
        }
        let entries = self.store.entries();
        match pick(entries.as_slice(), rng) {
            Some(entry) => {
                let drawn = clone_tokens(entry.context.as_slice());
                proof {
                    let i = choose|i: int| 0 <= i < entries@.len() && entries@[i] == *entry;
                    assert(self@[i].context == tokens_of(drawn@));
                    lemma_row_is_known(self@, i);
                    assert(tokens_of(drawn@).len() == drawn@.len());
                }
                Some(drawn)
            },
            None => None,
        }
    }

    /// Removes, in every context, each occurrence of a token that follows
    /// the context fewer than `min_occurrences` times, and every context
    /// that keeps no continuation. The threshold applies within a context:
    /// a token may go from one context and stay in another. Returns the
    /// number of occurrences removed.
    pub fn prune(&mut self, min_occurrences: usize) -> (removed: usize)
        ensures
            final(self).order() == old(self).order(),
            final(self)@ == prune_table(old(self)@, min_occurrences as nat),
            removed == total_occurrences(old(self)@) - total_occurrences(final(self)@),
            well_formed(final(self)@, final(self).order()),
            final(self).stats().describes(final(self)@),
    {
        proof {
            use_type_invariant(&*self);
        }
        let n = self.n;
        let mut taken = NGramModel::new(n);
        std::mem::swap(self, &mut taken);
        let NGramModel { n: _, store, stats: _ } = taken;
        let entries = store.entries();
        let ghost table = rows_of(entries@);
        let ghost min = min_occurrences as nat;
        let mut kept_rows = ContextStore::new();
        let mut removed: usize = 0;
        let mut i: usize = 0;
        assert(kept_rows@ =~= prune_table(table.take(0), min));
        while i < entries.len()
            invariant
                table == rows_of(entries@),
                min == min_occurrences as nat,
                well_formed(table, n as nat),
                total_occurrences(table) <= usize::MAX,
                i <= entries@.len(),
                kept_rows.indexed(),
                kept_rows@ == prune_table(table.take(i as int), min),
                removed + total_occurrences(kept_rows@) == total_occurrences(table.take(i as int)),
            decreases entries.len() - i,
        {
            let kept = keep_frequent(&entries[i].continuations, min_occurrences);
            proof {
                assert(table.take(i + 1).drop_last() =~= table.take(i as int));
                lemma_prefix_bounds(table, i + 1);
            }
            removed = removed + (entries[i].continuations.len() - kept.len());
            if kept.len() > 0 {
                let context = clone_tokens(entries[i].context.as_slice());
                let ghost row = ContextRow {
                    context: tokens_of(context@),
                    continuations: tokens_of(kept@),
                };
                proof {
                    lemma_total_push(kept_rows@, row);
                }
                kept_rows.push_row(context, kept);
            }
            i += 1;
        }
        proof {
            assert(table.take(i as int) =~= table);
            lemma_prune_rows(table, n as nat, min);
        }
        let stats = compute_stats(kept_rows.entries());
        *self = NGramModel { n, store: kept_rows, stats };
        removed
    }

    /// Brings equal continuations together in every context: each row
    /// lists its distinct tokens in the order of their first occurrence,
    /// each as often as before. No occurrence is added or removed, so
    /// every draw keeps its probability, and the number returned, the
    /// number of entries saved, is always 0.
    pub fn optimize(&mut self) -> (removed: usize)
        ensures
            final(self).order() == old(self).order(),
            final(self)@ == group_table(old(self)@),
            removed == 0,
            well_formed(final(self)@, final(self).order()),
            total_occurrences(final(self)@) == total_occurrences(old(self)@),
            final(self).stats().describes(final(self)@),
    {
        proof {
            use_type_invariant(&*self);
        }
        let n = self.n;
        let mut taken = NGramModel::new(n);
        std::mem::swap(self, &mut taken);
        let NGramModel { n: _, store, stats: _ } = taken;
        let entries = store.entries();
        let ghost table = rows_of(entries@);
        let mut grouped_rows = ContextStore::new();
        let mut removed: usize = 0;
        let mut i: usize = 0;
        assert(grouped_rows@ =~= group_table(table).take(0));
        while i < entries.len()
            invariant
                table == rows_of(entries@),
                i <= entries@.len(),
                removed == 0,
                grouped_rows.indexed(),
                grouped_rows@ == group_table(table).take(i as int),
            decreases entries.len() - i,
        {
            let continuations = group_tokens(&entries[i].continuations);
            removed = removed + (entries[i].continuations.len() - continuations.len());
            let context = clone_tokens(entries[i].context.as_slice());
            grouped_rows.push_row(context, continuations);
            assert(grouped_rows@ =~= group_table(table).take(i + 1));
            i += 1;
        }
        proof {
            assert(group_table(table).take(i as int) =~= group_table(table));
            lemma_group_table(table, n as nat);
        }
        let stats = compute_stats(grouped_rows.entries());
        *self = NGramModel { n, store: grouped_rows, stats };
        removed
    }

    /// Walks the model from `start_tokens` (from nothing, if there are
    /// none): each step draws a continuation of the current window, and the
    /// window then takes the new token in and, once it holds more than `n`
    /// tokens, lets its oldest go. The walk ends after `max_tokens` tokens,
    /// or earlier at the first window that the model does not know. The
    /// tokens drawn are returned, without the start.
    pub fn generate(
        &self,
        start_tokens: Option<Vec<String>>,
        max_tokens: usize,
        rng: &mut rand::rngs::StdRng,
    ) -> (generated: Vec<String>)
        ensures
            generated@.len() <= max_tokens,
            is_chain(self@, self.order(), given_tokens(start_tokens), tokens_of(generated@)),
            generated@.len() < max_tokens ==> continuations_of(
                self@,
                window_after(given_tokens(start_tokens), tokens_of(generated@), self.order()),
            ) is None,
    {
        let ghost start = given_tokens(start_tokens);
        let mut window: Vec<String> = match start_tokens {
            Some(start) => start,
            None => Vec::new(),
        };
        let mut generated: Vec<String> = Vec::new();
        assert(tokens_of(window@) =~= start);
        assert(tokens_of(generated@) =~= Seq::<Seq<char>>::empty());
        while generated.len() < max_tokens
            invariant
                start == given_tokens(start_tokens),
                generated@.len() <= max_tokens,
                is_chain(self@, self.order(), start, tokens_of(generated@)),
                tokens_of(window@) == window_after(start, tokens_of(generated@), self.order()),
            decreases max_tokens - generated@.len(),
        {
            match self.predict_next(window.as_slice(), rng) {
                Some(token) => {
                    let ghost drawn = tokens_of(generated@);
                    let ghost before = tokens_of(window@);
                    proof {
                        lemma_chain_push(self@, self.order(), start, drawn, token@);
                    }
                    generated.push(token.clone());
                    window.push(token);
                    assert(tokens_of(window@) =~= before.push(token@));
                    if window.len() > self.n() {
                        let _ = window.remove(0);
                        assert(tokens_of(window@) =~= before.push(token@).drop_first());
                    }
                    assert(tokens_of(generated@) =~= drawn.push(token@));
                },
                None => {
                    return generated;
                },
            }
        }
        generated
    }
}

} // verus!
