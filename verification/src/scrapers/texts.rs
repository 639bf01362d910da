//! Putting texts together and taking lists apart, as the content sources
//! need it.

use crate::text::chars::{
    char_is_whitespace, chars_of, is_whitespace, lowercase, string_of, to_lowercase, tokens_of,
    trim, trimmed,
};
use crate::text::processing::words_view;
use vstd::prelude::*;
use vstd::string::StringExecFns;

verus! {

/// The parts written one after the other with `separator` between each
/// two.
pub open spec fn joined(parts: Seq<Seq<char>>, separator: Seq<char>) -> Seq<char>
    decreases parts.len(),
{
    if parts.len() == 0 {
        Seq::empty()
    } else if parts.len() == 1 {
        parts[0]
    } else {
        joined(parts.drop_last(), separator) + separator + parts.last()
    }
}

/// The fields of the text from position `i` on, where `field` holds the
/// characters of the field that is open at `i`. Every comma closes a field,
/// and so does the end of the text: a text without a comma is one field.
pub open spec fn fields_from(text: Seq<char>, i: int, field: Seq<char>) -> Seq<Seq<char>>
    decreases text.len() - i,
{
    if i < 0 || i >= text.len() {
        seq![field]
    } else if text[i] == ',' {
        seq![field] + fields_from(text, i + 1, Seq::empty())
    } else {
        fields_from(text, i + 1, field.push(text[i]))
    }
}

/// The trimmed forms of `fields` that are not empty, in order.
pub open spec fn trimmed_items(fields: Seq<Seq<char>>) -> Seq<Seq<char>>
    decreases fields.len(),
{
    if fields.len() == 0 {
        Seq::empty()
    } else {
        let item = trimmed(fields.last());
        if item.len() > 0 {
            trimmed_items(fields.drop_last()).push(item)
        } else {
            trimmed_items(fields.drop_last())
        }
    }
}

/// The items of a list written with commas: the text is trimmed and cut at
/// its commas, each piece is trimmed, and the pieces with nothing left are
/// dropped.
pub open spec fn listed_items(text: Seq<char>) -> Seq<Seq<char>> {
    trimmed_items(fields_from(trimmed(text), 0, Seq::empty()))
}

/// Whether a text holds nothing but whitespace.
pub open spec fn is_blank(text: Seq<char>) -> bool {
    forall|i: int| 0 <= i < text.len() ==> is_whitespace(#[trigger] text[i])
}

/// A heading line and a body under it: `# `, the heading, an empty line,
/// the body.
pub open spec fn titled(heading: Seq<char>, body: Seq<char>) -> Seq<char> {
    "# "@ + heading + "\n\n"@ + body
}

/// Whether an answer is a yes: the letter `y`, in either case, with or
/// without whitespace around it.
pub open spec fn means_yes(answer: Seq<char>) -> bool {
    lowercase(trimmed(answer)) == seq!['y']
}

/// Tells whether `answer` is a yes.
pub fn is_yes(answer: &str) -> (yes: bool)
    ensures
        yes == means_yes(answer@),
{
    let inner = trim(&chars_of(answer));
    let lower = chars_of(to_lowercase(string_of(inner.as_slice()).as_str()).as_str());
    if lower.len() == 1 && lower[0] == 'y' {
        assert(lower@ =~= seq!['y']);
        true
    } else {
        assert(lower@.len() == 1 ==> lower@[0] != seq!['y'][0]);
        false
    }
}

/// The parts written one after the other with `separator` between each
/// two.
pub fn join_texts(parts: &Vec<String>, separator: &str) -> (text: String)
    ensures
        text@ == joined(tokens_of(parts@), separator@),
{
    let ghost all = tokens_of(parts@);
    let mut text = String::new();
    let mut i: usize = 0;
    assert(all.take(0) =~= Seq::<Seq<char>>::empty());
    while i < parts.len()
        invariant
            all == tokens_of(parts@),
            i <= parts@.len(),
            text@ == joined(all.take(i as int), separator@),
        decreases parts.len() - i,
    {
        if i > 0 {
            text.append(separator);
        }
        text.append(parts[i].as_str());
        proof {
            assert(all.take(i + 1).drop_last() =~= all.take(i as int));
            if i == 0 {
                assert(Seq::<char>::empty() + all[0] =~= all[0]);
            }
        }
        i += 1;
    }
    assert(all.take(i as int) =~= all);
    text
}

/// The parts put together with an empty line between each two, or `None` if
/// there is no part.
pub fn combine_texts(parts: &Vec<String>) -> (text: Option<String>)
    ensures
        match text {
            Some(combined) => parts@.len() > 0 && combined@ == joined(tokens_of(parts@), "\n\n"@),
            None => parts@.len() == 0,
        },
{
    if parts.len() == 0 {
        None
    } else {
        Some(join_texts(parts, "\n\n"))
    }
}

/// A heading line and a body under it.
pub fn titled_text(heading: &str, body: &str) -> (text: String)
    ensures
        text@ == titled(heading@, body@),
{
    let mut text = "# ".to_owned();
    text.append(heading);
    text.append("\n\n");
    text.append(body);
    text
}

/// Tells whether `text` holds nothing but whitespace.
pub fn text_is_blank(text: &str) -> (blank: bool)
    ensures
        blank == is_blank(text@),
{
    let chars = chars_of(text);
    let mut i: usize = 0;
    while i < chars.len()
        invariant
            chars@ == text@,
            i <= chars@.len(),
            forall|k: int| 0 <= k < i ==> is_whitespace(#[trigger] chars@[k]),
        decreases chars.len() - i,
    {
        if !char_is_whitespace(chars[i]) {
            assert(!is_whitespace(text@[i as int]));
            return false;
        }
        i += 1;
    }
    true
}

/// The fields of a text written with commas.
fn split_fields(text: &Vec<char>) -> (list: Vec<Vec<char>>)
    ensures
        words_view(list@) == fields_from(text@, 0, Seq::empty()),
{
    let mut list: Vec<Vec<char>> = Vec::new();
    let mut field: Vec<char> = Vec::new();
    let mut i: usize = 0;
    assert(words_view(list@) + fields_from(text@, 0, field@) =~= fields_from(
        text@,
        0,
        Seq::empty(),
    ));
    while i < text.len()
        invariant
            i <= text@.len(),
            words_view(list@) + fields_from(text@, i as int, field@) == fields_from(
                text@,
                0,
                Seq::empty(),
            ),
        decreases text.len() - i,
    {
        let ghost closed = words_view(list@);
        let ghost open = field@;
        if text[i] == ',' {
            let ghost rest = fields_from(text@, i + 1, Seq::empty());
            list.push(field);
            field = Vec::new();
            assert(field@ =~= Seq::<char>::empty());
            assert(words_view(list@) =~= closed + seq![open]);
            assert(words_view(list@) + rest =~= closed + (seq![open] + rest));
        } else {
            field.push(text[i]);
        }
        i += 1;
    }
    let ghost closed = words_view(list@);
    let ghost open = field@;
    list.push(field);
    assert(words_view(list@) =~= closed + seq![open]);
    list
}

/// Reads a list written with commas, such as `a, b ,c`: the items are the
/// pieces between the commas, trimmed, without the pieces that hold
/// nothing.
pub fn parse_list(input: &str) -> (items: Vec<String>)
    ensures
        tokens_of(items@) == listed_items(input@),
{
    let whole = trim(&chars_of(input));
    let fields = split_fields(&whole);
    let ghost all = words_view(fields@);
    let mut items: Vec<String> = Vec::new();
    let mut i: usize = 0;
    assert(all.take(0) =~= Seq::<Seq<char>>::empty());
    assert(tokens_of(items@) =~= trimmed_items(all.take(0)));
    while i < fields.len()
        invariant
            all == words_view(fields@),
            i <= fields@.len(),
            tokens_of(items@) == trimmed_items(all.take(i as int)),
        decreases fields.len() - i,
    {
        let item = trim(&fields[i]);
        let ghost earlier = tokens_of(items@);
        proof {
            assert(all.take(i + 1).drop_last() =~= all.take(i as int));
            assert(all.take(i + 1).last() == fields@[i as int]@);
        }
        if item.len() > 0 {
            items.push(string_of(item.as_slice()));
            assert(tokens_of(items@) =~= earlier.push(item@));
        }
        i += 1;
    }
    assert(all.take(i as int) =~= all);
    items
}

} // verus!
