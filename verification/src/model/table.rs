//! The mathematical model of an n-gram table: an ordered list of rows, one per
//! context, each holding the tokens seen after that context, one entry per
//! occurrence and in the order in which they were seen.

use vstd::prelude::*;

verus! {

/// One context and everything observed to follow it.
pub struct ContextRow {
    pub context: Seq<Seq<char>>,
    pub continuations: Seq<Seq<char>>,
}

/// A table is well formed for order `n` when every context has exactly `n`
/// tokens, no context occurs in two rows and no row is empty.
pub open spec fn well_formed(table: Seq<ContextRow>, n: nat) -> bool {
    &&& forall|i: int| 0 <= i < table.len() ==> (#[trigger] table[i]).context.len() == n
    &&& forall|i: int| 0 <= i < table.len() ==> (#[trigger] table[i]).continuations.len() > 0
    &&& distinct_contexts(table)
}

/// Whether no context occurs in two rows.
pub open spec fn distinct_contexts(table: Seq<ContextRow>) -> bool {
    forall|i: int, j: int|
        0 <= i < j < table.len() ==> (#[trigger] table[i]).context != (#[trigger] table[j]).context
}

/// The index of the row whose context is `context`, if there is one.
pub open spec fn position(table: Seq<ContextRow>, context: Seq<Seq<char>>) -> Option<int>
    decreases table.len(),
{
    if table.len() == 0 {
        None
    } else {
        match position(table.drop_last(), context) {
            Some(i) => Some(i),
            None => if table.last().context == context {
                Some(table.len() - 1)
            } else {
                None
            },
        }
    }
}

/// The continuations recorded for `context`, if the table knows it.
pub open spec fn continuations_of(table: Seq<ContextRow>, context: Seq<Seq<char>>) -> Option<
    Seq<Seq<char>>,
> {
    match position(table, context) {
        Some(i) => Some(table[i].continuations),
        None => None,
    }
}

/// The table after one more observation of `token` behind `context`: the
/// token is appended to the context's row, or a new row is appended for a
/// context not seen before.
pub open spec fn record(table: Seq<ContextRow>, context: Seq<Seq<char>>, token: Seq<char>) -> Seq<
    ContextRow,
> {
    match position(table, context) {
        Some(i) => table.update(
            i,
            ContextRow { context, continuations: table[i].continuations.push(token) },
        ),
        None => table.push(ContextRow { context, continuations: seq![token] }),
    }
}

/// The number of windows of `n + 1` consecutive tokens in a sequence of
/// `len` tokens.
pub open spec fn window_count(len: nat, n: nat) -> nat {
    if len > n {
        (len - n) as nat
    } else {
        0
    }
}

/// The table after training on `tokens`: every window of `n + 1` consecutive
/// tokens, from left to right, records its last token behind its first `n`.
pub open spec fn train(table: Seq<ContextRow>, n: nat, tokens: Seq<Seq<char>>) -> Seq<ContextRow>
    decreases tokens.len(),
{
    if tokens.len() <= n {
        table
    } else {
        let start = tokens.len() - 1 - n;
        record(
            train(table, n, tokens.drop_last()),
            tokens.subrange(start, start + n),
            tokens.last(),
        )
    }
}

/// The number of occurrences that the table holds: the sum of the lengths of
/// its rows.
pub open spec fn total_occurrences(table: Seq<ContextRow>) -> nat
    decreases table.len(),
{
    if table.len() == 0 {
        0
    } else {
        total_occurrences(table.drop_last()) + table.last().continuations.len()
    }
}

/// The sum over the rows of the number of distinct tokens in each.
pub open spec fn distinct_continuations(table: Seq<ContextRow>) -> nat
    decreases table.len(),
{
    if table.len() == 0 {
        0
    } else {
        distinct_continuations(table.drop_last()) + table.last().continuations.to_set().len()
    }
}

/// The length of the longest row, 0 for an empty table.
pub open spec fn largest_row(table: Seq<ContextRow>) -> nat
    decreases table.len(),
{
    if table.len() == 0 {
        0
    } else {
        let rest = largest_row(table.drop_last());
        if table.last().continuations.len() > rest {
            table.last().continuations.len()
        } else {
            rest
        }
    }
}

/// `position` finds the one row with the given context, or reports that no
/// row has it.
pub proof fn lemma_position(table: Seq<ContextRow>, context: Seq<Seq<char>>)
    ensures
        match position(table, context) {
            Some(i) => 0 <= i < table.len() && table[i].context == context && forall|j: int|
                0 <= j < i ==> (#[trigger] table[j]).context != context,
            None => forall|j: int|
                0 <= j < table.len() ==> (#[trigger] table[j]).context != context,
        },
    decreases table.len(),
{
    if table.len() > 0 {
        lemma_position(table.drop_last(), context);
        assert(forall|j: int|
            0 <= j < table.len() - 1 ==> table.drop_last()[j] == #[trigger] table[j]);
    }
}

/// In a table without repeated contexts, a row is found by its own context.
pub proof fn lemma_position_of_row(table: Seq<ContextRow>, i: int)
    requires
        distinct_contexts(table),
        0 <= i < table.len(),
    ensures
        position(table, table[i].context) == Some(i),
{
    lemma_position(table, table[i].context);
}

/// Replacing one row changes the total by the change in that row's length.
pub proof fn lemma_total_update(table: Seq<ContextRow>, i: int, row: ContextRow)
    requires
        0 <= i < table.len(),
    ensures
        total_occurrences(table.update(i, row)) + table[i].continuations.len() == total_occurrences(
            table,
        ) + row.continuations.len(),
    decreases table.len(),
{
    let updated = table.update(i, row);
    if i == table.len() - 1 {
        assert(updated.drop_last() =~= table.drop_last());
    } else {
        assert(updated.drop_last() =~= table.drop_last().update(i, row));
        lemma_total_update(table.drop_last(), i, row);
    }
}

/// Appending a row adds its length to the total.
pub proof fn lemma_total_push(table: Seq<ContextRow>, row: ContextRow)
    ensures
        total_occurrences(table.push(row)) == total_occurrences(table) + row.continuations.len(),
{
    assert(table.push(row).drop_last() =~= table);
}

/// A well-formed table stays well formed when a row is appended whose
/// context has the table's order and is new to the table, and which is not
/// empty.
pub proof fn lemma_push_row(table: Seq<ContextRow>, n: nat, row: ContextRow)
    requires
        well_formed(table, n),
        row.context.len() == n,
        row.continuations.len() > 0,
        position(table, row.context) is None,
    ensures
        well_formed(table.push(row), n),
{
    lemma_position(table, row.context);
}

/// One observation adds one occurrence, and keeps a well-formed table well
/// formed when the context has the table's order.
pub proof fn lemma_record(table: Seq<ContextRow>, n: nat, context: Seq<Seq<char>>, token: Seq<char>)
    requires
        well_formed(table, n),
        context.len() == n,
    ensures
        well_formed(record(table, context, token), n),
        total_occurrences(record(table, context, token)) == total_occurrences(table) + 1,
{
    lemma_position(table, context);
    match position(table, context) {
        Some(i) => {
            let row = ContextRow { context, continuations: table[i].continuations.push(token) };
            lemma_total_update(table, i, row);
        },
        None => {
            lemma_total_push(table, ContextRow { context, continuations: seq![token] });
        },
    }
}

/// Training keeps a well-formed table well formed and adds one occurrence
/// for each window of `n + 1` tokens.
pub proof fn lemma_train(table: Seq<ContextRow>, n: nat, tokens: Seq<Seq<char>>)
    requires
        well_formed(table, n),
    ensures
        well_formed(train(table, n, tokens), n),
        total_occurrences(train(table, n, tokens)) == total_occurrences(table) + window_count(
            tokens.len(),
            n,
        ),
    decreases tokens.len(),
{
    if tokens.len() > n {
        let start = tokens.len() - 1 - n;
        lemma_train(table, n, tokens.drop_last());
        lemma_record(
            train(table, n, tokens.drop_last()),
            n,
            tokens.subrange(start, start + n),
            tokens.last(),
        );
    }
}

/// Training an empty table on `tokens` leaves exactly as many occurrences as
/// `tokens` has windows of `n + 1` tokens: `tokens.len() - n`, or none when
/// the sequence is too short.
pub proof fn lemma_training_counts_windows(n: nat, tokens: Seq<Seq<char>>)
    ensures
        total_occurrences(train(Seq::empty(), n, tokens)) == window_count(tokens.len(), n),
{
    lemma_train(Seq::empty(), n, tokens);
}

/// Every prefix of a table holds at most as many occurrences as the table,
/// and in every table the distinct continuations and the longest row are
/// bounded by the occurrences.
pub proof fn lemma_prefix_bounds(table: Seq<ContextRow>, k: int)
    requires
        0 <= k <= table.len(),
    ensures
        total_occurrences(table.take(k)) <= total_occurrences(table),
        distinct_continuations(table) <= total_occurrences(table),
        largest_row(table) <= total_occurrences(table),
    decreases table.len(),
{
    if table.len() > 0 {
        table.last().continuations.lemma_cardinality_of_set();
        if k == table.len() {
            assert(table.take(k) =~= table);
            lemma_prefix_bounds(table.drop_last(), k - 1);
        } else {
            assert(table.take(k) =~= table.drop_last().take(k));
            lemma_prefix_bounds(table.drop_last(), k);
        }
    } else {
        assert(table.take(k) =~= table);
    }
}

/// How many times `token` occurs in `tokens`.
pub open spec fn occurrences(tokens: Seq<Seq<char>>, token: Seq<char>) -> nat
    decreases tokens.len(),
{
    if tokens.len() == 0 {
        0
    } else {
        occurrences(tokens.drop_last(), token) + if tokens.last() == token {
            1nat
        } else {
            0nat
        }
    }
}

/// What pruning keeps of a row: the tokens that occur in the row at least
/// `min` times, every occurrence of them, in their order.
pub open spec fn frequent(tokens: Seq<Seq<char>>, min: nat) -> Seq<Seq<char>> {
    tokens.filter(|t: Seq<char>| occurrences(tokens, t) >= min)
}

/// Whether `row` is what pruning leaves of `source`.
pub open spec fn pruned_from(row: ContextRow, source: ContextRow, min: nat) -> bool {
    row.context == source.context && row.continuations == frequent(source.continuations, min)
}

/// Whether `row` is what pruning leaves of some row of `table`.
pub open spec fn left_of(row: ContextRow, table: Seq<ContextRow>, min: nat) -> bool {
    exists|i: int| 0 <= i < table.len() && #[trigger] pruned_from(row, table[i], min)
}

/// Whether `pruned` holds what pruning leaves of `source`.
pub open spec fn left_in(source: ContextRow, pruned: Seq<ContextRow>, min: nat) -> bool {
    exists|j: int| 0 <= j < pruned.len() && #[trigger] pruned_from(pruned[j], source, min)
}

/// The table after pruning with threshold `min`: every row keeps its
/// frequent tokens, and a row that keeps none is dropped.
pub open spec fn prune_table(table: Seq<ContextRow>, min: nat) -> Seq<ContextRow>
    decreases table.len(),
{
    if table.len() == 0 {
        table
    } else {
        let rest = prune_table(table.drop_last(), min);
        let kept = frequent(table.last().continuations, min);
        if kept.len() > 0 {
            rest.push(ContextRow { context: table.last().context, continuations: kept })
        } else {
            rest
        }
    }
}

/// A token occurs at most as often as the sequence is long, and it occurs
/// at all exactly when the sequence contains it.
pub proof fn lemma_occurrences(tokens: Seq<Seq<char>>, token: Seq<char>)
    ensures
        occurrences(tokens, token) <= tokens.len(),
        occurrences(tokens, token) > 0 <==> tokens.contains(token),
    decreases tokens.len(),
{
    if tokens.len() > 0 {
        lemma_occurrences(tokens.drop_last(), token);
        if tokens.last() == token {
            assert(tokens[tokens.len() - 1] == token);
        } else if tokens.drop_last().contains(token) {
            let i = choose|i: int| 0 <= i < tokens.len() - 1 && tokens.drop_last()[i] == token;
            assert(tokens[i] == token);
        } else if tokens.contains(token) {
            let i = choose|i: int| 0 <= i < tokens.len() && tokens[i] == token;
            assert(tokens.drop_last()[i] == token);
        }
    }
}

/// Appending a token adds one occurrence of it and none of any other.
pub proof fn lemma_occurrences_push(tokens: Seq<Seq<char>>, last: Seq<char>, token: Seq<char>)
    ensures
        occurrences(tokens.push(last), token) == occurrences(tokens, token) + if last == token {
            1nat
        } else {
            0nat
        },
{
    assert(tokens.push(last).drop_last() =~= tokens);
}

/// Filtering keeps every occurrence of a token that passes, and none of one
/// that does not.
pub proof fn lemma_occurrences_filter(
    tokens: Seq<Seq<char>>,
    pred: spec_fn(Seq<char>) -> bool,
    token: Seq<char>,
)
    ensures
        occurrences(tokens.filter(pred), token) == if pred(token) {
            occurrences(tokens, token)
        } else {
            0
        },
    decreases tokens.len(),
{
    reveal(Seq::filter);
    if tokens.len() > 0 {
        lemma_occurrences_filter(tokens.drop_last(), pred, token);
        if pred(tokens.last()) {
            lemma_occurrences_push(tokens.drop_last().filter(pred), tokens.last(), token);
        }
    }
}

/// Pruning a row removes an occurrence exactly when its token occurs in the
/// row fewer than `min` times: a token that reaches the threshold keeps all
/// its occurrences, any other token keeps none.
pub proof fn lemma_frequent_occurrences(tokens: Seq<Seq<char>>, min: nat, token: Seq<char>)
    ensures
        occurrences(frequent(tokens, min), token) == if occurrences(tokens, token) >= min {
            occurrences(tokens, token)
        } else {
            0
        },
{
    lemma_occurrences_filter(tokens, |t: Seq<char>| occurrences(tokens, t) >= min, token);
}

/// Pruning a well-formed table leaves a well-formed table that holds no
/// more occurrences. Each row that is left comes from a row of the table,
/// and each row of the table that keeps a token is left.
pub proof fn lemma_prune_rows(table: Seq<ContextRow>, n: nat, min: nat)
    requires
        well_formed(table, n),
    ensures
        well_formed(prune_table(table, min), n),
        total_occurrences(prune_table(table, min)) <= total_occurrences(table),
        forall|j: int|
            0 <= j < prune_table(table, min).len() ==> #[trigger] left_of(
                prune_table(table, min)[j],
                table,
                min,
            ),
        forall|i: int|
            0 <= i < table.len() && frequent(table[i].continuations, min).len() > 0
                ==> #[trigger] left_in(table[i], prune_table(table, min), min),
    decreases table.len(),
{
    if table.len() > 0 {
        let front = table.drop_last();
        let rest = prune_table(front, min);
        let pruned = prune_table(table, min);
        let last = table.last();
        let kept = frequent(last.continuations, min);
        assert(well_formed(front, n)) by {
            assert(forall|i: int| 0 <= i < front.len() ==> front[i] == table[i]);
        }
        lemma_prune_rows(front, n, min);
        last.continuations.lemma_filter_len(
            |t: Seq<char>| occurrences(last.continuations, t) >= min,
        );
        assert forall|j: int| 0 <= j < rest.len() implies rest[j].context != last.context by {
            assert(left_of(rest[j], front, min));
            let i = choose|i: int| 0 <= i < front.len() && pruned_from(rest[j], front[i], min);
            assert(table[i].context != table[table.len() - 1].context);
        }
        if kept.len() > 0 {
            let row = ContextRow { context: last.context, continuations: kept };
            lemma_total_push(rest, row);
            assert(pruned_from(pruned[rest.len() as int], table[table.len() - 1], min));
        }
        assert forall|j: int| 0 <= j < pruned.len() implies #[trigger] left_of(
            pruned[j],
            table,
            min,
        ) by {
            if j < rest.len() {
                assert(left_of(rest[j], front, min));
                let i = choose|i: int| 0 <= i < front.len() && pruned_from(rest[j], front[i], min);
                assert(pruned_from(pruned[j], table[i], min));
            }
        }
        assert forall|i: int|
            0 <= i < table.len() && frequent(
                table[i].continuations,
                min,
            ).len() > 0 implies #[trigger] left_in(table[i], pruned, min) by {
            if i < front.len() {
                assert(front[i] == table[i]);
                assert(left_in(front[i], rest, min));
                let j = choose|j: int| 0 <= j < rest.len() && pruned_from(rest[j], front[i], min);
                assert(pruned_from(pruned[j], table[i], min));
            }
        }
    }
}

/// After pruning, a context is known exactly when it was known before and
/// at least one of its tokens reaches the threshold; its continuations are
/// then the frequent ones. A context that loses every continuation is gone.
pub proof fn lemma_prune_lookup(table: Seq<ContextRow>, n: nat, min: nat, context: Seq<Seq<char>>)
    requires
        well_formed(table, n),
    ensures
        continuations_of(prune_table(table, min), context) == match continuations_of(
            table,
            context,
        ) {
            Some(all) => if frequent(all, min).len() > 0 {
                Some(frequent(all, min))
            } else {
                None
            },
            None => None,
        },
{
    let pruned = prune_table(table, min);
    lemma_prune_rows(table, n, min);
    lemma_position(table, context);
    lemma_position(pruned, context);
    match position(pruned, context) {
        Some(j) => {
            assert(left_of(pruned[j], table, min));
            let i = choose|i: int| 0 <= i < table.len() && pruned_from(pruned[j], table[i], min);
            assert(table[i].context == context);
        },
        None => {
            if let Some(i) = position(table, context) {
                if frequent(table[i].continuations, min).len() > 0 {
                    assert(left_in(table[i], pruned, min));
                    let j = choose|j: int|
                        0 <= j < pruned.len() && pruned_from(pruned[j], table[i], min);
                    assert(pruned[j].context == context);
                }
            }
        },
    }
}

/// `count` copies of `token`.
pub open spec fn repeated(token: Seq<char>, count: nat) -> Seq<Seq<char>> {
    Seq::new(count, |i: int| token)
}

/// The distinct tokens of `tokens`, in the order of their first occurrence.
pub open spec fn first_seen(tokens: Seq<Seq<char>>) -> Seq<Seq<char>>
    decreases tokens.len(),
{
    if tokens.len() == 0 {
        tokens
    } else {
        let before = first_seen(tokens.drop_last());
        if before.contains(tokens.last()) {
            before
        } else {
            before.push(tokens.last())
        }
    }
}

/// For each token of `order` in turn, as many copies of it as `tokens`
/// holds.
pub open spec fn expand(order: Seq<Seq<char>>, tokens: Seq<Seq<char>>) -> Seq<Seq<char>>
    decreases order.len(),
{
    if order.len() == 0 {
        Seq::empty()
    } else {
        expand(order.drop_last(), tokens) + repeated(
            order.last(),
            occurrences(tokens, order.last()),
        )
    }
}

/// The tokens of a row with equal tokens brought together: each distinct
/// token, in the order of first occurrence, as often as the row holds it.
pub open spec fn grouped(tokens: Seq<Seq<char>>) -> Seq<Seq<char>> {
    expand(first_seen(tokens), tokens)
}

/// The table with every row grouped.
pub open spec fn group_table(table: Seq<ContextRow>) -> Seq<ContextRow> {
    Seq::new(
        table.len(),
        |i: int|
            ContextRow {
                context: table[i].context,
                continuations: grouped(table[i].continuations),
            },
    )
}

/// The occurrences in a concatenation are those of its two parts.
pub proof fn lemma_occurrences_add(a: Seq<Seq<char>>, b: Seq<Seq<char>>, token: Seq<char>)
    ensures
        occurrences(a + b, token) == occurrences(a, token) + occurrences(b, token),
    decreases b.len(),
{
    if b.len() == 0 {
        assert(a + b =~= a);
    } else {
        assert((a + b).drop_last() =~= a + b.drop_last());
        lemma_occurrences_add(a, b.drop_last(), token);
    }
}

/// Copies of one token hold that token only.
pub proof fn lemma_occurrences_repeated(item: Seq<char>, count: nat, token: Seq<char>)
    ensures
        occurrences(repeated(item, count), token) == if item == token {
            count
        } else {
            0
        },
    decreases count,
{
    if count > 0 {
        assert(repeated(item, count).drop_last() =~= repeated(item, (count - 1) as nat));
        lemma_occurrences_repeated(item, (count - 1) as nat, token);
    }
}

/// `first_seen` lists every token of the sequence once.
pub proof fn lemma_first_seen(tokens: Seq<Seq<char>>)
    ensures
        first_seen(tokens).no_duplicates(),
        forall|t: Seq<char>| first_seen(tokens).contains(t) <==> tokens.contains(t),
    decreases tokens.len(),
{
    if tokens.len() > 0 {
        let front = tokens.drop_last();
        let before = first_seen(front);
        lemma_first_seen(front);
        assert forall|t: Seq<char>| first_seen(tokens).contains(t) <==> tokens.contains(t) by {
            lemma_occurrences(tokens, t);
            lemma_occurrences(front, t);
            if !before.contains(tokens.last()) {
                if before.contains(t) {
                    let k = choose|k: int| 0 <= k < before.len() && before[k] == t;
                    assert(before.push(tokens.last())[k] == t);
                }
                assert(before.push(tokens.last())[before.len() as int] == tokens.last());
            }
        }
    }
}

/// Expanding a duplicate-free order holds a token as often as `tokens` does
/// where the order lists it, and not at all where it does not.
pub proof fn lemma_expand_occurrences(
    order: Seq<Seq<char>>,
    tokens: Seq<Seq<char>>,
    token: Seq<char>,
)
    requires
        order.no_duplicates(),
    ensures
        occurrences(expand(order, tokens), token) == if order.contains(token) {
            occurrences(tokens, token)
        } else {
            0
        },
    decreases order.len(),
{
    if order.len() > 0 {
        let front = order.drop_last();
        lemma_expand_occurrences(front, tokens, token);
        lemma_occurrences_add(
            expand(front, tokens),
            repeated(order.last(), occurrences(tokens, order.last())),
            token,
        );
        lemma_occurrences_repeated(order.last(), occurrences(tokens, order.last()), token);
        if front.contains(token) {
            let k = choose|k: int| 0 <= k < front.len() && front[k] == token;
            assert(order[k] == token);
            assert(order[order.len() - 1] != token);
        } else if order.contains(token) {
            let k = choose|k: int| 0 <= k < order.len() && order[k] == token;
            if k < order.len() - 1 {
                assert(front[k] == token);
            }
        } else {
            assert(order[order.len() - 1] != token);
        }
    }
}

/// One more token makes the expansion of a duplicate-free order longer by
/// one where the order lists the token, and leaves its length otherwise.
pub proof fn lemma_expand_len_push(order: Seq<Seq<char>>, tokens: Seq<Seq<char>>, last: Seq<char>)
    requires
        order.no_duplicates(),
    ensures
        expand(order, tokens.push(last)).len() == expand(order, tokens).len() + if order.contains(
            last,
        ) {
            1nat
        } else {
            0nat
        },
    decreases order.len(),
{
    if order.len() > 0 {
        let front = order.drop_last();
        lemma_expand_len_push(front, tokens, last);
        lemma_occurrences_push(tokens, last, order.last());
        if front.contains(last) {
            let k = choose|k: int| 0 <= k < front.len() && front[k] == last;
            assert(order[k] == last);
            assert(order[order.len() - 1] != last);
        } else if order.contains(last) {
            let k = choose|k: int| 0 <= k < order.len() && order[k] == last;
            if k < order.len() - 1 {
                assert(front[k] == last);
            }
        } else {
            assert(order[order.len() - 1] != last);
        }
    }
}

/// Grouping rearranges a row and nothing more: the row keeps its length,
/// and every token occurs in it as often as before.
pub proof fn lemma_grouped(tokens: Seq<Seq<char>>)
    ensures
        grouped(tokens).len() == tokens.len(),
        forall|t: Seq<char>| occurrences(grouped(tokens), t) == occurrences(tokens, t),
    decreases tokens.len(),
{
    lemma_first_seen(tokens);
    assert forall|t: Seq<char>| occurrences(grouped(tokens), t) == occurrences(tokens, t) by {
        lemma_expand_occurrences(first_seen(tokens), tokens, t);
        lemma_occurrences(tokens, t);
    }
    if tokens.len() > 0 {
        let front = tokens.drop_last();
        let before = first_seen(front);
        lemma_grouped(front);
        lemma_first_seen(front);
        assert(front.push(tokens.last()) =~= tokens);
        lemma_expand_len_push(before, front, tokens.last());
        if !before.contains(tokens.last()) {
            lemma_occurrences(front, tokens.last());
            lemma_occurrences_push(front, tokens.last(), tokens.last());
            assert(before.push(tokens.last()).drop_last() =~= before);
        }
    }
}

/// Grouping every row leaves the contexts, the number of occurrences and
/// the well-formedness of the table as they were.
pub proof fn lemma_group_table(table: Seq<ContextRow>, n: nat)
    requires
        well_formed(table, n),
    ensures
        well_formed(group_table(table), n),
        total_occurrences(group_table(table)) == total_occurrences(table),
    decreases table.len(),
{
    assert forall|i: int| 0 <= i < table.len() implies (#[trigger] group_table(
        table,
    )[i]).continuations.len() == table[i].continuations.len() by {
        lemma_grouped(table[i].continuations);
    }
    if table.len() > 0 {
        let front = table.drop_last();
        assert(well_formed(front, n)) by {
            assert(forall|i: int| 0 <= i < front.len() ==> front[i] == table[i]);
        }
        lemma_group_table(front, n);
        assert(group_table(table).drop_last() =~= group_table(front));
    }
}

/// Grouping changes no lookup but by grouping what is found.
pub proof fn lemma_group_lookup(table: Seq<ContextRow>, context: Seq<Seq<char>>)
    ensures
        continuations_of(group_table(table), context) == match continuations_of(table, context) {
            Some(all) => Some(grouped(all)),
            None => None,
        },
{
    lemma_position(table, context);
    lemma_position(group_table(table), context);
    match position(table, context) {
        Some(i) => {
            assert(group_table(table)[i].context == context);
            if let Some(j) = position(group_table(table), context) {
                assert(group_table(table)[j].context == table[j].context);
            }
        },
        None => {
            if let Some(j) = position(group_table(table), context) {
                assert(group_table(table)[j].context == table[j].context);
            }
        },
    }
}

} // verus!
