//! Where the model keeps its rows: a list of entries in the order in which
//! their contexts were first met, and an index that leads from a context
//! to its entry without a walk through the list.

use crate::model::table::{
    distinct_contexts, lemma_position, lemma_position_of_row, position, record, ContextRow,
};
use crate::text::chars::tokens_of;
use vstd::hash_map::StringHashMap;
use vstd::prelude::*;
use vstd::string::StringExecFns;

verus! {

/// A context with the tokens that followed it, as the model stores them.
pub struct ContextEntry {
    pub context: Vec<String>,
    pub continuations: Vec<String>,
}

impl View for ContextEntry {
    type V = ContextRow;

    open spec fn view(&self) -> ContextRow {
        ContextRow {
            context: tokens_of(self.context@),
            continuations: tokens_of(self.continuations@),
        }
    }
}

/// The table that a list of entries stands for.
pub open spec fn rows_of(entries: Seq<ContextEntry>) -> Seq<ContextRow> {
    Seq::new(entries.len(), |i: int| entries[i]@)
}

/// Tells whether two token lists hold the same tokens in the same order.
pub fn same_tokens(a: &[String], b: &[String]) -> (same: bool)
    ensures
        same == (tokens_of(a@) == tokens_of(b@)),
{
    if a.len() != b.len() {
        assert(tokens_of(a@).len() != tokens_of(b@).len());
        return false;
    }
    let mut i: usize = 0;
    while i < a.len()
        invariant
            a@.len() == b@.len(),
            i <= a@.len(),
            forall|j: int| 0 <= j < i ==> a@[j]@ == b@[j]@,
        decreases a.len() - i,
    {
        if !(a[i] == b[i]) {
            assert(tokens_of(a@)[i as int] != tokens_of(b@)[i as int]);
            return false;
        }
        i += 1;
    }
    assert(tokens_of(a@) =~= tokens_of(b@));
    true
}

/// A copy of a token list.
pub fn clone_tokens(tokens: &[String]) -> (copy: Vec<String>)
    ensures
        tokens_of(copy@) == tokens_of(tokens@),
        copy@.len() == tokens@.len(),
{
    let mut copy: Vec<String> = Vec::new();
    let mut i: usize = 0;
    while i < tokens.len()
        invariant
            i <= tokens@.len(),
            copy@.len() == i,
            forall|j: int| 0 <= j < i ==> copy@[j]@ == tokens@[j]@,
        decreases tokens.len() - i,
    {
        copy.push(tokens[i].clone());
        i += 1;
    }
    assert(tokens_of(copy@) =~= tokens_of(tokens@));
    copy
}

/// The text under which the index files a context: its tokens, each
/// followed by a separator. Two contexts may share a text; the index then
/// files both under it.
pub open spec fn index_key(context: Seq<Seq<char>>) -> Seq<char>
    decreases context.len(),
{
    if context.len() == 0 {
        Seq::empty()
    } else {
        index_key(context.drop_last()) + context.last() + "\u{1f}"@
    }
}

/// The text under which the index files `context`.
fn make_key(context: &[String]) -> (key: String)
    ensures
        key@ == index_key(tokens_of(context@)),
{
    let ghost all = tokens_of(context@);
    let mut key = String::new();
    let mut i: usize = 0;
    assert(all.take(0) =~= Seq::<Seq<char>>::empty());
    while i < context.len()
        invariant
            all == tokens_of(context@),
            i <= context@.len(),
            key@ == index_key(all.take(i as int)),
        decreases context.len() - i,
    {
        key.append(context[i].as_str());
        key.append("\u{1f}");
        assert(all.take(i + 1).drop_last() =~= all.take(i as int));
        i += 1;
    }
    assert(all.take(i as int) =~= all);
    key
}

/// A copy of a list of positions.
fn copy_positions(list: &Vec<usize>) -> (copy: Vec<usize>)
    ensures
        copy@ == list@,
{
    let mut copy: Vec<usize> = Vec::new();
    let mut i: usize = 0;
    while i < list.len()
        invariant
            i <= list@.len(),
            copy@ == list@.take(i as int),
        decreases list.len() - i,
    {
        copy.push(list[i]);
        assert(list@.take(i + 1) =~= list@.take(i as int).push(list@[i as int]));
        i += 1;
    }
    assert(list@.take(i as int) =~= list@);
    copy
}

/// The rows of a model with their index.
pub(crate) struct ContextStore {
    entries: Vec<ContextEntry>,
    index: StringHashMap<Vec<usize>>,
}

impl View for ContextStore {
    type V = Seq<ContextRow>;

    closed spec fn view(&self) -> Seq<ContextRow> {
        rows_of(self.entries@)
    }
}

impl ContextStore {
    /// Whether the index files the position `i` under `key`.
    pub(crate) closed spec fn files(&self, key: Seq<char>, i: int) -> bool {
        self.index@.contains_key(key) && exists|k: int|
            0 <= k < self.index@[key]@.len() && #[trigger] self.index@[key]@[k] == i
    }

    /// Whether the index is sound: it files every row under the text of its
    /// context, and every position that it files is the position of a row.
    pub(crate) closed spec fn indexed(&self) -> bool {
        &&& forall|i: int|
            0 <= i < self.entries@.len() ==> #[trigger] self.files(
                index_key(rows_of(self.entries@)[i].context),
                i,
            )
        &&& forall|key: Seq<char>, k: int|
            self.index@.contains_key(key) && 0 <= k < self.index@[key]@.len() ==> (
            #[trigger] self.index@[key]@[k]) < self.entries@.len()
    }

    /// A store without rows.
    pub(crate) fn new() -> (store: Self)
        ensures
            store.indexed(),
            store@ == Seq::<ContextRow>::empty(),
    {
        let store = ContextStore { entries: Vec::new(), index: StringHashMap::new() };
        assert(rows_of(store.entries@) =~= Seq::<ContextRow>::empty());
        store
    }

    /// The rows in their order.
    pub(crate) fn entries(&self) -> (entries: &Vec<ContextEntry>)
        ensures
            rows_of(entries@) == self@,
    {
        &self.entries
    }

    /// The number of rows.
    pub(crate) fn len(&self) -> (count: usize)
        ensures
            count == self@.len(),
    {
        self.entries.len()
    }

    /// The position of the row for the context `key`.
    pub(crate) fn find(&self, key: &[String]) -> (found: Option<usize>)
        requires
            self.indexed(),
            distinct_contexts(self@),
        ensures
            match found {
                Some(i) => i < self@.len() && position(self@, tokens_of(key@)) == Some(i as int),
                None => position(self@, tokens_of(key@)) is None,
            },
    {
        let ghost table = rows_of(self.entries@);
        let ghost wanted = tokens_of(key@);
        proof {
            lemma_position(table, wanted);
        }
        let text = make_key(key);
        match self.index.get(text.as_str()) {
            Some(filed) => {
                let mut k: usize = 0;
                while k < filed.len()
                    invariant
                        self.indexed(),
                        table == rows_of(self.entries@),
                        wanted == tokens_of(key@),
                        distinct_contexts(table),
                        self.index@.contains_key(text@),
                        *filed == self.index@[text@],
                        k <= filed@.len(),
                        forall|m: int|
                            0 <= m < k ==> table[(#[trigger] filed@[m]) as int].context != wanted,
                    decreases filed.len() - k,
                {
                    let i = filed[k];
                    assert(self.index@[text@]@[k as int] < self.entries@.len());
                    if same_tokens(self.entries[i].context.as_slice(), key) {
                        proof {
                            assert(table[i as int].context == wanted);
                            lemma_position_of_row(table, i as int);
                        }
                        return Some(i);
                    }
                    k += 1;
                }
                proof {
                    if let Some(i) = position(table, wanted) {
                        assert(self.files(index_key(table[i].context), i));
                        let m = choose|m: int|
                            0 <= m < self.index@[text@]@.len() && #[trigger] self.index@[text@]@[m]
                                == i;
                        assert(table[filed@[m] as int].context != wanted);
                    }
                }
                None
            },
            None => {
                proof {
                    if let Some(i) = position(table, wanted) {
                        assert(self.files(index_key(table[i].context), i));
                    }
                }
                None
            },
        }
    }

    /// Appends a row.
    pub(crate) fn push_row(&mut self, context: Vec<String>, continuations: Vec<String>)
        requires
            old(self).indexed(),
        ensures
            final(self).indexed(),
            final(self)@ == old(self)@.push(
                ContextRow {
                    context: tokens_of(context@),
                    continuations: tokens_of(continuations@),
                },
            ),
    {
        let ghost before = *self;
        let ghost row = ContextRow {
            context: tokens_of(context@),
            continuations: tokens_of(continuations@),
        };
        let text = make_key(context.as_slice());
        let place = self.entries.len();
        let mut filed: Vec<usize> = match self.index.get(text.as_str()) {
            Some(earlier) => copy_positions(earlier),
            None => Vec::new(),
        };
        let ghost earlier = filed@;
        filed.push(place);
        self.index.insert(text, filed);
        self.entries.push(ContextEntry { context, continuations });
        proof {
            let table = rows_of(self.entries@);
            assert(table =~= rows_of(before.entries@).push(row));
            assert forall|i: int| 0 <= i < self.entries@.len() implies #[trigger] self.files(
                index_key(table[i].context),
                i,
            ) by {
                let key = index_key(table[i].context);
                if i < place {
                    assert(before.files(index_key(rows_of(before.entries@)[i].context), i));
                    let k = choose|k: int|
                        0 <= k < before.index@[key]@.len() && #[trigger] before.index@[key]@[k]
                            == i;
                    if key == text@ {
                        assert(earlier == before.index@[key]@);
                        assert(self.index@[key]@[k] == i);
                    } else {
                        assert(self.index@[key]@[k] == i);
                    }
                } else {
                    assert(self.index@[key]@[earlier.len() as int] == i);
                }
            }
            assert forall|key: Seq<char>, k: int|
                self.index@.contains_key(key) && 0 <= k < self.index@[key]@.len() implies (
            #[trigger] self.index@[key]@[k]) < self.entries@.len() by {
                if key == text@ {
                    if k < earlier.len() {
                        assert(before.index@.contains_key(key));
                        assert(before.index@[key]@[k] < before.entries@.len());
                    }
                } else {
                    assert(before.index@[key]@[k] < before.entries@.len());
                }
            }
        }
    }

    /// Records one observation of `token` behind the context `key`.
    pub(crate) fn record(&mut self, key: &[String], token: String)
        requires
            old(self).indexed(),
            distinct_contexts(old(self)@),
        ensures
            final(self).indexed(),
            final(self)@ == record(old(self)@, tokens_of(key@), token@),
    {
        let ghost before = *self;
        proof {
            lemma_position(rows_of(self.entries@), tokens_of(key@));
        }
        match self.find(key) {
            Some(i) => {
                self.entries[i].continuations.push(token);
                proof {
                    assert(rows_of(self.entries@) =~= record(
                        rows_of(before.entries@),
                        tokens_of(key@),
                        token@,
                    )) by {
                        assert(tokens_of(self.entries@[i as int].continuations@) =~= tokens_of(
                            before.entries@[i as int].continuations@,
                        ).push(token@));
                    }
                    assert forall|j: int|
                        0 <= j < self.entries@.len() implies #[trigger] self.files(
                        index_key(rows_of(self.entries@)[j].context),
                        j,
                    ) by {
                        assert(before.files(index_key(rows_of(before.entries@)[j].context), j));
                        assert(rows_of(self.entries@)[j].context == rows_of(
                            before.entries@,
                        )[j].context);
                    }
                }
            },
            None => {
                let mut continuations: Vec<String> = Vec::new();
                continuations.push(token);
                let context = clone_tokens(key);
                assert(tokens_of(continuations@) =~= seq![token@]);
                self.push_row(context, continuations);
            },
        }
    }
}

} // verus!
