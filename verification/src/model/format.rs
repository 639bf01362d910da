//! Turning a token sequence back into prose.
//!
//! The tokens are taken one by one, each adding to a draft according to
//! the first rule that fits it; the draft is then closed with a mark,
//! cleaned of leftovers and trimmed.

use crate::text::chars::{
    char_is_sentence_end, chars_of, is_sentence_end, lemma_trimmed_keeps_last, string_of,
    to_uppercase, tokens_of, trim, trimmed, uppercase,
};
use crate::text::processing::{sentence_marker, words_view};
use vstd::prelude::*;

verus! {

/// The text under construction and what the next word has to know.
pub struct Draft {
    /// What has been written.
    pub text: Seq<char>,
    /// Whether the next word starts with an upper-case letter.
    pub capitalize: bool,
    /// Whether the last token written was an apostrophe.
    pub after_apostrophe: bool,
}

/// The marks that the formatter writes without a space before them.
pub open spec fn is_mark(c: char) -> bool {
    ||| c == ','
    ||| c == '.'
    ||| c == '!'
    ||| c == '?'
    ||| c == ';'
    ||| c == ':'
    ||| c == '('
    ||| c == ')'
    ||| c == '['
    ||| c == ']'
    ||| c == '{'
    ||| c == '}'
    ||| c == '"'
    ||| c == '\''
}

/// The marks that open something, after which no space is written.
pub open spec fn is_opening_mark(c: char) -> bool {
    c == '(' || c == '[' || c == '{' || c == '"' || c == '\''
}

/// The token `#`, which starts a paragraph.
pub open spec fn is_heading(token: Seq<char>) -> bool {
    token == seq!['#']
}

/// The token `'`.
pub open spec fn is_apostrophe(token: Seq<char>) -> bool {
    token == seq!['\'']
}

/// A token of one character that is a mark.
pub open spec fn is_mark_token(token: Seq<char>) -> bool {
    token.len() == 1 && is_mark(token[0])
}

/// The word ends that an apostrophe ties to the word before it: `t`, `s`,
/// `ll`, `ve`, `re`, `d`, `m`.
pub open spec fn is_contraction_suffix(token: Seq<char>) -> bool {
    ||| token == seq!['t']
    ||| token == seq!['s']
    ||| token == seq!['l', 'l']
    ||| token == seq!['v', 'e']
    ||| token == seq!['r', 'e']
    ||| token == seq!['d']
    ||| token == seq!['m']
}

/// Whether the text ends with `c`.
pub open spec fn ends_with(text: Seq<char>, c: char) -> bool {
    text.len() > 0 && text.last() == c
}

/// Whether the text ends with `.`, `!` or `?`.
pub open spec fn ends_sentence(text: Seq<char>) -> bool {
    text.len() > 0 && is_sentence_end(text.last())
}

/// The word with `capital` in place of its first character.
pub open spec fn capitalized(word: Seq<char>, capital: Seq<char>) -> Seq<char> {
    if word.len() > 0 {
        capital + word.drop_first()
    } else {
        word
    }
}

/// The upper-case form of the first character of token `i`, as the list
/// `capitals` gives it. A token that the list does not reach keeps its
/// first character.
pub open spec fn capital_at(tokens: Seq<Seq<char>>, capitals: Seq<Seq<char>>, i: int) -> Seq<char> {
    if 0 <= i < capitals.len() {
        capitals[i]
    } else if tokens[i].len() > 0 {
        seq![tokens[i][0]]
    } else {
        Seq::empty()
    }
}

/// For each token the upper-case form of its first character, which may be
/// one character or several; nothing for an empty token.
pub open spec fn capitals_of(tokens: Seq<Seq<char>>) -> Seq<Seq<char>> {
    Seq::new(
        tokens.len(),
        |i: int|
            if tokens[i].len() > 0 {
                uppercase(tokens[i][0])
            } else {
                Seq::empty()
            },
    )
}

/// The draft after the token at position `i` of `tokens`, where `capitals`
/// gives the upper-case forms of the tokens' first characters. The first
/// of these rules that fits decides:
///
/// 1. `#`, unless it is the last token, starts a paragraph: an empty line,
///    unless the draft is empty or at the start of a line, and an
///    upper-case letter for the next word. The `#` is not written.
/// 2. The sentence marker ends the sentence: a `.`, unless the draft ends
///    with `.`, `!` or `?`, then a space, and an upper-case letter for the
///    next word.
/// 3. An apostrophe between two tokens, the second a contraction suffix, is
///    written alone, and the suffix will follow it without a space.
/// 4. A mark is written without a space before it, and with a space after
///    it unless it opens something.
/// 5. Any other token is a word: a space before it, unless it is the first
///    token or the draft is empty, ends with a space or a line break, or
///    the last token was an apostrophe; then the word, with an upper-case
///    first letter if one is due.
pub open spec fn step(
    draft: Draft,
    tokens: Seq<Seq<char>>,
    capitals: Seq<Seq<char>>,
    i: int,
) -> Draft {
    let token = tokens[i];
    if is_heading(token) && i < tokens.len() - 1 {
        Draft {
            text: if draft.text.len() > 0 && !ends_with(draft.text, '\n') {
                draft.text + seq!['\n', '\n']
            } else {
                draft.text
            },
            capitalize: true,
            after_apostrophe: draft.after_apostrophe,
        }
    } else if token == sentence_marker() {
        Draft {
            text: (if ends_sentence(draft.text) {
                draft.text
            } else {
                draft.text.push('.')
            }).push(' '),
            capitalize: true,
            after_apostrophe: draft.after_apostrophe,
        }
    } else if is_apostrophe(token) && 0 < i < tokens.len() - 1 && is_contraction_suffix(
        tokens[i + 1],
    ) {
        Draft {
            text: draft.text.push('\''),
            capitalize: draft.capitalize,
            after_apostrophe: true,
        }
    } else if is_mark_token(token) {
        Draft {
            text: if is_opening_mark(token[0]) {
                draft.text + token
            } else {
                (draft.text + token).push(' ')
            },
            capitalize: draft.capitalize,
            after_apostrophe: is_apostrophe(token),
        }
    } else {
        let spaced = if i > 0 && draft.text.len() > 0 && !ends_with(draft.text, ' ') && !ends_with(
            draft.text,
            '\n',
        ) && !draft.after_apostrophe {
            draft.text.push(' ')
        } else {
            draft.text
        };
        Draft {
            text: spaced + if draft.capitalize {
                capitalized(token, capital_at(tokens, capitals, i))
            } else {
                token
            },
            capitalize: false,
            after_apostrophe: false,
        }
    }
}

/// The draft after the first `count` tokens. It starts empty, with an
/// upper-case letter due.
pub open spec fn draft_after(tokens: Seq<Seq<char>>, capitals: Seq<Seq<char>>, count: int) -> Draft
    decreases count,
{
    if count <= 0 {
        Draft { text: Seq::empty(), capitalize: true, after_apostrophe: false }
    } else {
        step(draft_after(tokens, capitals, count - 1), tokens, capitals, count - 1)
    }
}

/// Whether `pattern` stands in `text` at position `i`.
pub open spec fn occurs_at(text: Seq<char>, pattern: Seq<char>, i: int) -> bool {
    0 <= i && i + pattern.len() <= text.len() && text.subrange(i, i + pattern.len()) == pattern
}

/// The text from position `i` on with every occurrence of `pattern`
/// replaced by `with`, the occurrences being taken from left to right and
/// never overlapping. The pattern is not empty.
pub open spec fn replaced_from(text: Seq<char>, pattern: Seq<char>, with: Seq<char>, i: int) -> Seq<
    char,
>
    decreases text.len() - i,
{
    if i < 0 || i >= text.len() || pattern.len() == 0 {
        Seq::empty()
    } else if occurs_at(text, pattern, i) {
        with + replaced_from(text, pattern, with, i + pattern.len())
    } else {
        seq![text[i]] + replaced_from(text, pattern, with, i + 1)
    }
}

/// The text with every occurrence of `pattern` replaced by `with`.
pub open spec fn replaced(text: Seq<char>, pattern: Seq<char>, with: Seq<char>) -> Seq<char> {
    replaced_from(text, pattern, with, 0)
}

/// The text with a `.` at its end, unless it ends with `.`, `!` or `?`.
pub open spec fn closed(text: Seq<char>) -> Seq<char> {
    if ends_sentence(text) {
        text
    } else {
        text.push('.')
    }
}

/// The text without leftovers: a sentence marker still in it becomes `. `,
/// and a space before `.`, `,`, `!` or `?` goes, in this order.
pub open spec fn cleaned(text: Seq<char>) -> Seq<char> {
    let no_marker = replaced(text, sentence_marker(), seq!['.', ' ']);
    let no_space_dot = replaced(no_marker, seq![' ', '.'], seq!['.']);
    let no_space_comma = replaced(no_space_dot, seq![' ', ','], seq![',']);
    let no_space_bang = replaced(no_space_comma, seq![' ', '!'], seq!['!']);
    replaced(no_space_bang, seq![' ', '?'], seq!['?'])
}

/// The prose that a token sequence stands for, given the upper-case forms
/// of the tokens' first characters: the draft after all tokens, closed,
/// cleaned and trimmed.
pub open spec fn formatted_with(tokens: Seq<Seq<char>>, capitals: Seq<Seq<char>>) -> Seq<char> {
    trimmed(cleaned(closed(draft_after(tokens, capitals, tokens.len() as int).text)))
}

/// The prose that a token sequence stands for.
pub open spec fn formatted(tokens: Seq<Seq<char>>) -> Seq<char> {
    formatted_with(tokens, capitals_of(tokens))
}

/// Replacing leaves the last character of a text in place if the pattern
/// and its replacement end alike, or if the text does not end as the
/// pattern does.
pub proof fn lemma_replaced_keeps_last(
    text: Seq<char>,
    pattern: Seq<char>,
    with: Seq<char>,
    i: int,
)
    requires
        0 <= i < text.len(),
        pattern.len() > 0,
        with.len() > 0,
        pattern.last() == with.last() || text.last() != pattern.last(),
    ensures
        replaced_from(text, pattern, with, i).len() > 0,
        replaced_from(text, pattern, with, i).last() == text.last(),
    decreases text.len() - i,
{
    if occurs_at(text, pattern, i) {
        let next = i + pattern.len();
        if next < text.len() {
            lemma_replaced_keeps_last(text, pattern, with, next);
        } else {
            assert(text.subrange(i, next)[pattern.len() - 1] == text.last());
            assert(replaced_from(text, pattern, with, next) =~= Seq::<char>::empty());
            assert(with + Seq::<char>::empty() =~= with);
        }
    } else if i + 1 < text.len() {
        lemma_replaced_keeps_last(text, pattern, with, i + 1);
    } else {
        assert(replaced_from(text, pattern, with, i + 1) =~= Seq::<char>::empty());
    }
}

/// Formatted prose always ends a sentence: its last character is `.`, `!`
/// or `?`.
pub proof fn lemma_formatted_ends_sentence(tokens: Seq<Seq<char>>, capitals: Seq<Seq<char>>)
    ensures
        ends_sentence(formatted_with(tokens, capitals)),
{
    let draft = closed(draft_after(tokens, capitals, tokens.len() as int).text);
    let no_marker = replaced(draft, sentence_marker(), seq!['.', ' ']);
    let no_space_dot = replaced(no_marker, seq![' ', '.'], seq!['.']);
    let no_space_comma = replaced(no_space_dot, seq![' ', ','], seq![',']);
    let no_space_bang = replaced(no_space_comma, seq![' ', '!'], seq!['!']);
    let no_space_question = replaced(no_space_bang, seq![' ', '?'], seq!['?']);
    lemma_replaced_keeps_last(draft, sentence_marker(), seq!['.', ' '], 0);
    lemma_replaced_keeps_last(no_marker, seq![' ', '.'], seq!['.'], 0);
    lemma_replaced_keeps_last(no_space_dot, seq![' ', ','], seq![','], 0);
    lemma_replaced_keeps_last(no_space_comma, seq![' ', '!'], seq!['!'], 0);
    lemma_replaced_keeps_last(no_space_bang, seq![' ', '?'], seq!['?'], 0);
    lemma_trimmed_keeps_last(no_space_question);
}

/// Tells whether `word` is the one character `c`.
fn is_single(word: &Vec<char>, c: char) -> (r: bool)
    ensures
        r == (word@ == seq![c]),
{
    if word.len() == 1 && word[0] == c {
        assert(word@ =~= seq![c]);
        true
    } else {
        assert(word@.len() == 1 ==> word@[0] != seq![c][0]);
        false
    }
}

/// Tells whether `word` is the two characters `a`, `b`.
fn is_pair(word: &Vec<char>, a: char, b: char) -> (r: bool)
    ensures
        r == (word@ == seq![a, b]),
{
    if word.len() == 2 && word[0] == a && word[1] == b {
        assert(word@ =~= seq![a, b]);
        true
    } else {
        assert(word@.len() == 2 ==> word@[0] != seq![a, b][0] || word@[1] != seq![a, b][1]);
        false
    }
}

/// Tells whether `c` is a mark.
fn char_is_mark(c: char) -> (r: bool)
    ensures
        r == is_mark(c),
{
    c == ',' || c == '.' || c == '!' || c == '?' || c == ';' || c == ':' || c == '(' || c == ')'
        || c == '[' || c == ']' || c == '{' || c == '}' || c == '"' || c == '\''
}

/// Tells whether `c` is a mark that opens something.
fn char_is_opening_mark(c: char) -> (r: bool)
    ensures
        r == is_opening_mark(c),
{
    c == '(' || c == '[' || c == '{' || c == '"' || c == '\''
}

/// Tells whether `word` is a contraction suffix.
fn word_is_contraction_suffix(word: &Vec<char>) -> (r: bool)
    ensures
        r == is_contraction_suffix(word@),
{
    is_single(word, 't') || is_single(word, 's') || is_pair(word, 'l', 'l') || is_pair(
        word,
        'v',
        'e',
    ) || is_pair(word, 'r', 'e') || is_single(word, 'd') || is_single(word, 'm')
}

/// The sentence marker as a list of characters.
fn marker_chars() -> (marker: Vec<char>)
    ensures
        marker@ == sentence_marker(),
{
    let marker = vec!['<', 'S', 'E', 'N', 'T', 'E', 'N', 'C', 'E', '>'];
    assert(marker@ =~= sentence_marker());
    marker
}

/// Tells whether `a` and `b` hold the same characters.
fn same_chars(a: &Vec<char>, b: &Vec<char>) -> (r: bool)
    ensures
        r == (a@ == b@),
{
    if a.len() != b.len() {
        return false;
    }
    let mut i: usize = 0;
    while i < a.len()
        invariant
            a@.len() == b@.len(),
            i <= a@.len(),
            a@.take(i as int) == b@.take(i as int),
        decreases a.len() - i,
    {
        if a[i] != b[i] {
            return false;
        }
        assert(a@.take(i + 1) =~= a@.take(i as int).push(a@[i as int]));
        assert(b@.take(i + 1) =~= b@.take(i as int).push(b@[i as int]));
        i += 1;
    }
    assert(a@ =~= a@.take(i as int));
    assert(b@ =~= b@.take(i as int));
    true
}

/// Appends the characters of `more` to `text`.
fn push_all(text: &mut Vec<char>, more: &Vec<char>)
    ensures
        final(text)@ == old(text)@ + more@,
{
    let mut i: usize = 0;
    assert(text@ =~= old(text)@ + more@.take(0));
    while i < more.len()
        invariant
            i <= more@.len(),
            text@ == old(text)@ + more@.take(i as int),
        decreases more.len() - i,
    {
        text.push(more[i]);
        assert(text@ =~= old(text)@ + more@.take(i + 1));
        i += 1;
    }
    assert(more@.take(i as int) =~= more@);
}

/// Tells whether `text` ends with `c`.
fn text_ends_with(text: &Vec<char>, c: char) -> (r: bool)
    ensures
        r == ends_with(text@, c),
{
    text.len() > 0 && text[text.len() - 1] == c
}

/// Tells whether `text` ends with `.`, `!` or `?`.
fn text_ends_sentence(text: &Vec<char>) -> (r: bool)
    ensures
        r == ends_sentence(text@),
{
    text.len() > 0 && char_is_sentence_end(text[text.len() - 1])
}

/// Appends `word` to `text` with `capital` in place of its first
/// character.
fn push_capitalized(text: &mut Vec<char>, word: &Vec<char>, capital: &Vec<char>)
    ensures
        final(text)@ == old(text)@ + capitalized(word@, capital@),
{
    if word.len() > 0 {
        push_all(text, capital);
        let mut i: usize = 1;
        assert(text@ =~= old(text)@ + (capital@ + word@.subrange(1, 1)));
        while i < word.len()
            invariant
                1 <= i <= word@.len(),
                text@ == old(text)@ + (capital@ + word@.subrange(1, i as int)),
            decreases word.len() - i,
        {
            text.push(word[i]);
            assert(text@ =~= old(text)@ + (capital@ + word@.subrange(1, i + 1)));
            i += 1;
        }
        assert(word@.subrange(1, i as int) =~= word@.drop_first());
    } else {
        assert(text@ =~= old(text)@ + capitalized(word@, capital@));
    }
}

/// The characters of each text of a list.
fn chars_of_all(texts: &[String]) -> (list: Vec<Vec<char>>)
    ensures
        words_view(list@) == tokens_of(texts@),
{
    let mut list: Vec<Vec<char>> = Vec::new();
    let mut k: usize = 0;
    while k < texts.len()
        invariant
            k <= texts@.len(),
            list@.len() == k,
            forall|j: int| 0 <= j < k ==> (#[trigger] list@[j])@ == texts@[j]@,
        decreases texts.len() - k,
    {
        list.push(chars_of(texts[k].as_str()));
        k += 1;
    }
    assert(words_view(list@) =~= tokens_of(texts@));
    list
}

/// Tells whether `pattern` stands in `text` at position `i`.
fn pattern_at(text: &Vec<char>, pattern: &Vec<char>, i: usize) -> (r: bool)
    requires
        i <= text@.len(),
    ensures
        r == occurs_at(text@, pattern@, i as int),
{
    if pattern.len() > text.len() - i {
        return false;
    }
    let mut k: usize = 0;
    while k < pattern.len()
        invariant
            i + pattern@.len() <= text@.len() <= usize::MAX,
            k <= pattern@.len(),
            text@.subrange(i as int, i + k) == pattern@.take(k as int),
        decreases pattern.len() - k,
    {
        if text[i + k] != pattern[k] {
            assert(text@.subrange(i as int, i + pattern@.len())[k as int] != pattern@[k as int]);
            return false;
        }
        assert(text@.subrange(i as int, i + k + 1) =~= text@.subrange(i as int, i + k).push(
            text@[i + k],
        ));
        assert(pattern@.take(k + 1) =~= pattern@.take(k as int).push(pattern@[k as int]));
        k += 1;
    }
    assert(pattern@.take(k as int) =~= pattern@);
    true
}

/// The text with every occurrence of `pattern` replaced by `with`.
fn replace_all(text: &Vec<char>, pattern: &Vec<char>, with: &Vec<char>) -> (out: Vec<char>)
    requires
        pattern@.len() > 0,
    ensures
        out@ == replaced(text@, pattern@, with@),
{
    let mut out: Vec<char> = Vec::new();
    let mut i: usize = 0;
    assert(out@ + replaced_from(text@, pattern@, with@, 0) =~= replaced(text@, pattern@, with@));
    while i < text.len()
        invariant
            pattern@.len() > 0,
            i <= text@.len(),
            out@ + replaced_from(text@, pattern@, with@, i as int) == replaced(
                text@,
                pattern@,
                with@,
            ),
        decreases text.len() - i,
    {
        let ghost before = out@;
        if pattern_at(text, pattern, i) {
            push_all(&mut out, with);
            assert(out@ + replaced_from(text@, pattern@, with@, i + pattern@.len()) =~= before
                + replaced_from(text@, pattern@, with@, i as int));
            i += pattern.len();
        } else {
            out.push(text[i]);
            assert(out@ + replaced_from(text@, pattern@, with@, i + 1) =~= before + replaced_from(
                text@,
                pattern@,
                with@,
                i as int,
            ));
            i += 1;
        }
    }
    assert(out@ + replaced_from(text@, pattern@, with@, i as int) =~= out@);
    out
}

/// The text without leftovers.
fn clean(text: &Vec<char>) -> (out: Vec<char>)
    ensures
        out@ == cleaned(text@),
{
    let marker = marker_chars();
    let dot_space = vec!['.', ' '];
    assert(dot_space@ =~= seq!['.', ' ']);
    let no_marker = replace_all(text, &marker, &dot_space);
    let space_dot = vec![' ', '.'];
    let dot = vec!['.'];
    assert(space_dot@ =~= seq![' ', '.']);
    assert(dot@ =~= seq!['.']);
    let no_space_dot = replace_all(&no_marker, &space_dot, &dot);
    let space_comma = vec![' ', ','];
    let comma = vec![','];
    assert(space_comma@ =~= seq![' ', ',']);
    assert(comma@ =~= seq![',']);
    let no_space_comma = replace_all(&no_space_dot, &space_comma, &comma);
    let space_bang = vec![' ', '!'];
    let bang = vec!['!'];
    assert(space_bang@ =~= seq![' ', '!']);
    assert(bang@ =~= seq!['!']);
    let no_space_bang = replace_all(&no_space_comma, &space_bang, &bang);
    let space_question = vec![' ', '?'];
    let question = vec!['?'];
    assert(space_question@ =~= seq![' ', '?']);
    assert(question@ =~= seq!['?']);
    replace_all(&no_space_bang, &space_question, &question)
}

/// For each token the upper-case form of its first character, and an
/// empty text for an empty token.
pub fn capitals_for(tokens: &[String]) -> (capitals: Vec<String>)
    ensures
        tokens_of(capitals@) == capitals_of(tokens_of(tokens@)),
{
    let mut capitals: Vec<String> = Vec::new();
    let mut i: usize = 0;
    while i < tokens.len()
        invariant
            i <= tokens@.len(),
            capitals@.len() == i,
            forall|j: int|
                0 <= j < i ==> (#[trigger] capitals@[j])@ == capitals_of(tokens_of(tokens@))[j],
        decreases tokens.len() - i,
    {
        let word = chars_of(tokens[i].as_str());
        if word.len() > 0 {
            capitals.push(string_of(to_uppercase(word[0]).as_slice()));
        } else {
            capitals.push(String::new());
        }
        i += 1;
    }
    assert(tokens_of(capitals@) =~= capitals_of(tokens_of(tokens@)));
    capitals
}

/// Renders `tokens` as prose, with the upper-case forms of the tokens'
/// first characters given in `capitals`, one for each token; a token that
/// `capitals` does not reach keeps its first character.
///
/// A `#` that is not the last token starts a new paragraph and is not
/// written itself. The sentence marker `<SENTENCE>` ends a sentence with a
/// `.` (unless a `.`, `!` or `?` stands there already) and a space. After
/// either, and at the very start, the next word begins with its upper-case
/// form. A mark (one of `,.!?;:()[]{}"'`) is written without a space
/// before it and, unless it opens something (`([{"'`), with a space after
/// it. An apostrophe before `t`, `s`, `ll`, `ve`, `re`, `d` or `m` ties
/// that suffix to the word before it. Words are set apart by one space.
/// At the end the text is closed with a `.` unless it ends with `.`, `!`
/// or `?`; a sentence marker left in it becomes `. `; a space before `.`,
/// `,`, `!` or `?` goes; and whitespace at both ends goes.
pub fn format_with(tokens: &[String], capitals: &[String]) -> (text: String)
    ensures
        text@ == formatted_with(tokens_of(tokens@), tokens_of(capitals@)),
        ends_sentence(text@),
{
    proof {
        lemma_formatted_ends_sentence(tokens_of(tokens@), tokens_of(capitals@));
    }
    let ghost all = tokens_of(tokens@);
    let ghost upper = tokens_of(capitals@);
    let list = chars_of_all(tokens);
    let given = chars_of_all(capitals);
    let marker = marker_chars();
    let mut text: Vec<char> = Vec::new();
    let mut capitalize = true;
    let mut after_apostrophe = false;
    let mut i: usize = 0;
    while i < list.len()
        invariant
            i <= list@.len(),
            words_view(list@) == all,
            words_view(given@) == upper,
            marker@ == sentence_marker(),
            draft_after(all, upper, i as int) == (Draft {
                text: text@,
                capitalize,
                after_apostrophe,
            }),
        decreases list.len() - i,
    {
        let ghost draft = Draft { text: text@, capitalize, after_apostrophe };
        let token = &list[i];
        assert(token@ == all[i as int]);
        if is_single(token, '#') && i < list.len() - 1 {
            if text.len() > 0 && !text_ends_with(&text, '\n') {
                text.push('\n');
                text.push('\n');
                assert(text@ =~= draft.text + seq!['\n', '\n']);
            }
            capitalize = true;
        } else if same_chars(token, &marker) {
            if !text_ends_sentence(&text) {
                text.push('.');
            }
            text.push(' ');
            capitalize = true;
        } else if is_single(token, '\'') && i > 0 && i < list.len() - 1
            && word_is_contraction_suffix(&list[i + 1]) {
            assert(list@[i + 1]@ == all[i + 1]);
            text.push('\'');
            after_apostrophe = true;
        } else if token.len() == 1 && char_is_mark(token[0]) {
            if i > 0 && i < list.len() - 1 {
                assert(list@[i + 1]@ == all[i + 1]);
            }
            push_all(&mut text, token);
            if !char_is_opening_mark(token[0]) {
                text.push(' ');
            }
            after_apostrophe = is_single(token, '\'');
        } else {
            if i > 0 && i < list.len() - 1 {
                assert(list@[i + 1]@ == all[i + 1]);
            }
            if i > 0 && text.len() > 0 && !text_ends_with(&text, ' ') && !text_ends_with(
                &text,
                '\n',
            ) && !after_apostrophe {
                text.push(' ');
            }
            if capitalize {
                if i < given.len() {
                    assert(given@[i as int]@ == upper[i as int]);
                    push_capitalized(&mut text, token, &given[i]);
                } else {
                    let ghost before = text@;
                    push_all(&mut text, token);
                    assert(text@ =~= before + capitalized(
                        token@,
                        capital_at(all, upper, i as int),
                    ));
                }
            } else {
                push_all(&mut text, token);
            }
            capitalize = false;
            after_apostrophe = false;
        }
        assert((Draft { text: text@, capitalize, after_apostrophe }) == step(
            draft,
            all,
            upper,
            i as int,
        ));
        i += 1;
    }
    if !text_ends_sentence(&text) {
        text.push('.');
    }
    let tidy = clean(&text);
    let result = trim(&tidy);
    string_of(result.as_slice())
}

/// Renders `tokens` as prose: as `format_with` does, with each word that
/// is due an upper-case letter beginning with the upper-case form of its
/// first character.
pub fn format_tokens(tokens: &[String]) -> (text: String)
    ensures
        text@ == formatted(tokens_of(tokens@)),
        ends_sentence(text@),
{
    let capitals = capitals_for(tokens);
    format_with(tokens, capitals.as_slice())
}

} // verus!
