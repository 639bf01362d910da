//! Walks through a table: what it means for a token sequence to have been
//! generated from a model.

use crate::model::table::{continuations_of, lemma_position, ContextRow};
use vstd::prelude::*;

verus! {

/// Whether `token` is recorded as a continuation of `window`.
pub open spec fn follows(table: Seq<ContextRow>, window: Seq<Seq<char>>, token: Seq<char>) -> bool {
    match continuations_of(table, window) {
        Some(continuations) => continuations.contains(token),
        None => false,
    }
}

/// The window after `token` has been appended to it: the last `n` tokens,
/// or all of them while there are no more than `n`.
pub open spec fn advance(window: Seq<Seq<char>>, token: Seq<char>, n: nat) -> Seq<Seq<char>> {
    let grown = window.push(token);
    if grown.len() > n {
        grown.drop_first()
    } else {
        grown
    }
}

/// The window after all of `tokens` have been appended to `start`, one by
/// one.
pub open spec fn window_after(start: Seq<Seq<char>>, tokens: Seq<Seq<char>>, n: nat) -> Seq<
    Seq<char>,
>
    decreases tokens.len(),
{
    if tokens.len() == 0 {
        start
    } else {
        advance(window_after(start, tokens.drop_last(), n), tokens.last(), n)
    }
}

/// Whether `tokens` is a chain from `start`: every token is a recorded
/// continuation of the window that the tokens before it lead to.
pub open spec fn is_chain(
    table: Seq<ContextRow>,
    n: nat,
    start: Seq<Seq<char>>,
    tokens: Seq<Seq<char>>,
) -> bool {
    forall|k: int|
        0 <= k < tokens.len() ==> #[trigger] follows(
            table,
            window_after(start, tokens.take(k), n),
            tokens[k],
        )
}

/// A chain stays a chain when a continuation of its last window is
/// appended.
pub proof fn lemma_chain_push(
    table: Seq<ContextRow>,
    n: nat,
    start: Seq<Seq<char>>,
    tokens: Seq<Seq<char>>,
    token: Seq<char>,
)
    requires
        is_chain(table, n, start, tokens),
        follows(table, window_after(start, tokens, n), token),
    ensures
        is_chain(table, n, start, tokens.push(token)),
        window_after(start, tokens.push(token), n) == advance(
            window_after(start, tokens, n),
            token,
            n,
        ),
{
    let longer = tokens.push(token);
    assert(longer.drop_last() =~= tokens);
    assert forall|k: int| 0 <= k < longer.len() implies #[trigger] follows(
        table,
        window_after(start, longer.take(k), n),
        longer[k],
    ) by {
        if k < tokens.len() {
            assert(longer.take(k) =~= tokens.take(k));
            assert(follows(table, window_after(start, tokens.take(k), n), tokens[k]));
        } else {
            assert(longer.take(k) =~= tokens);
        }
    }
}

/// The window after `token` has been drawn behind `context`: the context
/// without its oldest token, and with the new one at its end.
pub open spec fn slide(context: Seq<Seq<char>>, token: Seq<char>) -> Seq<Seq<char>> {
    context.drop_first().push(token)
}

/// The window in which step `k` of a walk begins: `first` for step 0, and
/// after that what step `k - 1` left.
pub open spec fn window_before(
    first: Seq<Seq<char>>,
    contexts: Seq<Seq<Seq<char>>>,
    tokens: Seq<Seq<char>>,
    k: int,
) -> Seq<Seq<char>> {
    if k <= 0 {
        first
    } else {
        slide(contexts[k - 1], tokens[k - 1])
    }
}

/// Whether `token` may be drawn in a step that begins in `window` and draws
/// behind `context`: the context is the window itself where the table
/// knows the window, and any context of the table where it does not; the
/// token is a recorded continuation of the context.
pub open spec fn draws(
    table: Seq<ContextRow>,
    window: Seq<Seq<char>>,
    context: Seq<Seq<char>>,
    token: Seq<char>,
) -> bool {
    &&& continuations_of(table, window) is Some ==> context == window
    &&& follows(table, context, token)
}

/// Whether `tokens` is a walk from the window `first` that drew its tokens
/// behind `contexts`, one for each token.
pub open spec fn is_walk(
    table: Seq<ContextRow>,
    first: Seq<Seq<char>>,
    contexts: Seq<Seq<Seq<char>>>,
    tokens: Seq<Seq<char>>,
) -> bool {
    &&& contexts.len() == tokens.len()
    &&& forall|k: int|
        0 <= k < tokens.len() ==> #[trigger] draws(
            table,
            window_before(first, contexts, tokens, k),
            contexts[k],
            tokens[k],
        )
}

/// What a generation begins with: the seed or, without a seed, the context
/// `start`.
pub open spec fn prefix_of(seed: Option<Seq<Seq<char>>>, start: Seq<Seq<char>>) -> Seq<Seq<char>> {
    match seed {
        Some(given) => given,
        None => start,
    }
}

/// The window in which a generation begins. Without a seed it is the
/// context `start`. With a seed of `n` tokens or more it is the last `n`
/// tokens of the seed. With a shorter seed it is `start` with the seed
/// written over its last tokens.
pub open spec fn first_window(seed: Option<Seq<Seq<char>>>, start: Seq<Seq<char>>, n: nat) -> Seq<
    Seq<char>,
> {
    match seed {
        Some(given) => if given.len() >= n {
            given.subrange(given.len() - n, given.len() as int)
        } else {
            start.take(n - given.len()) + given
        },
        None => start,
    }
}

/// Whether `out` is a generation of `length` tokens that is explained by
/// the context `start` and by the contexts behind which its tokens were
/// drawn: `start` is a context of the table, `out` begins with the prefix,
/// and the `length` tokens after the prefix are a walk from the first
/// window.
pub open spec fn explains(
    table: Seq<ContextRow>,
    n: nat,
    seed: Option<Seq<Seq<char>>>,
    length: nat,
    out: Seq<Seq<char>>,
    start: Seq<Seq<char>>,
    contexts: Seq<Seq<Seq<char>>>,
) -> bool {
    let prefix = prefix_of(seed, start);
    &&& continuations_of(table, start) is Some
    &&& out.len() == prefix.len() + length
    &&& out.take(prefix.len() as int) == prefix
    &&& is_walk(table, first_window(seed, start, n), contexts, out.skip(prefix.len() as int))
}

/// Whether `out` can come out of a generation of `length` tokens from
/// `seed`.
pub open spec fn is_generation(
    table: Seq<ContextRow>,
    n: nat,
    seed: Option<Seq<Seq<char>>>,
    length: nat,
    out: Seq<Seq<char>>,
) -> bool {
    exists|start: Seq<Seq<char>>, contexts: Seq<Seq<Seq<char>>>| #[trigger]
        explains(table, n, seed, length, out, start, contexts)
}

/// A generation from a seed begins with the seed, token for token,
/// whatever the seed's length.
pub proof fn lemma_generation_keeps_seed(
    table: Seq<ContextRow>,
    n: nat,
    seed: Seq<Seq<char>>,
    length: nat,
    out: Seq<Seq<char>>,
)
    requires
        is_generation(table, n, Some(seed), length, out),
    ensures
        out.len() == seed.len() + length,
        out.take(seed.len() as int) == seed,
{
    let (start, contexts) = choose|start: Seq<Seq<char>>, contexts: Seq<Seq<Seq<char>>>| #[trigger]
        explains(table, n, Some(seed), length, out, start, contexts);
}

/// Every token that a generation adds, that is each of its last `length`
/// tokens, is a recorded continuation of some context of the table.
pub proof fn lemma_generation_draws_from_table(
    table: Seq<ContextRow>,
    n: nat,
    seed: Option<Seq<Seq<char>>>,
    length: nat,
    out: Seq<Seq<char>>,
    k: int,
)
    requires
        is_generation(table, n, seed, length, out),
        out.len() - length <= k < out.len(),
    ensures
        exists|context: Seq<Seq<char>>| #[trigger] follows(table, context, out[k]),
{
    let (start, contexts) = choose|start: Seq<Seq<char>>, contexts: Seq<Seq<Seq<char>>>| #[trigger]
        explains(table, n, seed, length, out, start, contexts);
    let prefix = prefix_of(seed, start);
    let drawn = out.skip(prefix.len() as int);
    let step = k - prefix.len();
    assert(draws(
        table,
        window_before(first_window(seed, start, n), contexts, drawn, step),
        contexts[step],
        drawn[step],
    ));
    assert(follows(table, contexts[step], out[k]));
}

/// A table that is not empty knows the context of each of its rows.
pub proof fn lemma_row_is_known(table: Seq<ContextRow>, i: int)
    requires
        0 <= i < table.len(),
    ensures
        continuations_of(table, table[i].context) is Some,
{
    lemma_position(table, table[i].context);
}

} // verus!
