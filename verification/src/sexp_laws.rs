//! What is written as an s-expression is what is read from it.

use crate::component_edit::escaped;
use crate::report_laws::law_quotes_and_backslashes_are_escaped;
use crate::sexp::{atom_end, document, ends_atom, items_at, string_at, unescaped, value_at, Tree};
use crate::text::{is_white_space, lemma_white_end, white_end};
use vstd::prelude::*;

verus! {

// ─── Strings ─────────────────────────────────────────────────────────────────

/// In a quoted string a backslash takes the character behind it: `n`, `r` and `t`
/// stand for the line feed, the carriage return and the tab, and every other
/// character for itself. The string goes on behind it.
pub proof fn law_a_backslash_takes_the_next_character(s: Seq<char>, i: int)
    requires
        0 <= i,
        i + 1 < s.len(),
        s[i] == '\\',
    ensures
        ({
            let c = s[i + 1];
            let stands: char = if c == 'n' {
                '\n'
            } else if c == 'r' {
                '\r'
            } else if c == 't' {
                '\t'
            } else {
                c
            };
            match string_at(s, i + 2) {
                Some((rest, end)) => string_at(s, i) == Some((seq![stands] + rest, end)),
                None => string_at(s, i) is None,
            }
        }),
{
}

/// A string that is written with its quotes and backslashes escaped reads as it was.
pub proof fn law_an_escaped_string_reads_back(head: Seq<char>, text: Seq<char>, rest: Seq<char>)
    ensures
        string_at(head + escaped(text) + seq!['"'] + rest, head.len() as int) == Some(
            (text, (head.len() + escaped(text).len() + 1) as int),
        ),
    decreases text.len(),
{
    let s = head + escaped(text) + seq!['"'] + rest;
    let i = head.len() as int;
    if text.len() == 0 {
        assert(escaped(text) =~= Seq::<char>::empty());
        assert(s[i] == '"');
        assert(text =~= Seq::<char>::empty());
    } else {
        let c = text[0];
        let tail = text.skip(1);
        let one: Seq<char> = if c == '\\' || c == '"' {
            seq!['\\', c]
        } else {
            seq![c]
        };
        lemma_escaped_front(text);
        let front = head + one;
        assert(s =~= front + escaped(tail) + seq!['"'] + rest);
        law_an_escaped_string_reads_back(front, tail, rest);
        assert(text =~= seq![c] + tail);
        if c == '\\' || c == '"' {
            assert(s[i] == '\\' && s[i + 1] == c);
            assert(unescaped(c) == c);
        } else {
            assert(s[i] == c);
        }
    }
}

proof fn lemma_escaped_front(text: Seq<char>)
    requires
        text.len() > 0,
    ensures
        escaped(text) == (if text[0] == '\\' || text[0] == '"' {
            seq!['\\', text[0]]
        } else {
            seq![text[0]]
        }) + escaped(text.skip(1)),
{
    let none = Seq::<char>::empty();
    law_quotes_and_backslashes_are_escaped(none, text[0], text.skip(1));
    assert(none.push(text[0]) + text.skip(1) =~= text);
    assert(escaped(none) =~= none);
    let one: Seq<char> = if text[0] == '\\' || text[0] == '"' {
        seq!['\\', text[0]]
    } else {
        seq![text[0]]
    };
    assert(escaped(none) + one + escaped(text.skip(1)) =~= one + escaped(text.skip(1)));
}

// ─── Trees ───────────────────────────────────────────────────────────────────

/// Whether a text can be an atom: something, and no character in it that ends one.
pub open spec fn is_atom(text: Seq<char>) -> bool {
    text.len() > 0 && forall|k: int| 0 <= k < text.len() ==> !ends_atom(#[trigger] text[k])
}

/// Whether every atom of a tree can be written as one.
pub open spec fn is_printable(tree: Tree) -> bool
    decreases tree,
{
    match tree {
        Tree::Atom(text) => is_atom(text),
        Tree::Text(_) => true,
        Tree::List(items) => are_printable(items),
    }
}

/// Whether every atom of all the trees can be written as one.
pub open spec fn are_printable(items: Seq<Tree>) -> bool
    decreases items,
{
    items.len() > 0 ==> is_printable(items[0]) && are_printable(
        items.subrange(1, items.len() as int),
    )
}

/// A tree as it is written: an atom bare, a string between quotes, and the items of a
/// list between parentheses, each with a space behind it.
pub open spec fn printed(tree: Tree) -> Seq<char>
    decreases tree,
{
    match tree {
        Tree::Atom(text) => text,
        Tree::Text(text) => seq!['"'] + escaped(text) + seq!['"'],
        Tree::List(items) => seq!['('] + printed_items(items),
    }
}

/// The items of a list as they are written, and the parenthesis that closes it.
pub open spec fn printed_items(items: Seq<Tree>) -> Seq<char>
    decreases items,
{
    if items.len() == 0 {
        seq![')']
    } else {
        printed(items[0]) + seq![' '] + printed_items(items.subrange(1, items.len() as int))
    }
}

proof fn lemma_atom_end(s: Seq<char>, i: int, end: int)
    requires
        0 <= i <= end <= s.len(),
        forall|k: int| i <= k < end ==> !ends_atom(#[trigger] s[k]),
        end < s.len() ==> ends_atom(s[end]),
    ensures
        atom_end(s, i) == end,
    decreases end - i,
{
    if i < end {
        assert(!ends_atom(s[i]));
        lemma_atom_end(s, i + 1, end);
    }
}

proof fn lemma_printed_front(tree: Tree)
    requires
        is_printable(tree),
    ensures
        printed(tree).len() > 0,
        !is_white_space(printed(tree)[0]),
        printed(tree)[0] != ')',
{
    match tree {
        Tree::Atom(text) => {
            assert(!ends_atom(text[0]));
        },
        _ => {},
    }
}

/// A tree that is written reads as it was, and its end is found, whatever stands
/// before it and whatever follows.
pub proof fn law_a_written_tree_reads_back(head: Seq<char>, tree: Tree, rest: Seq<char>)
    requires
        is_printable(tree),
        rest.len() > 0 ==> ends_atom(rest[0]),
    ensures
        value_at(head + printed(tree) + rest, head.len() as int) == Some(
            (tree, (head.len() + printed(tree).len()) as int),
        ),
    decreases tree,
{
    let s = head + printed(tree) + rest;
    let i = head.len() as int;
    let end = i + printed(tree).len();
    match tree {
        Tree::Atom(text) => {
            assert forall|k: int| i <= k < end implies !ends_atom(#[trigger] s[k]) by {
                assert(s[k] == text[k - i]);
            }
            if end < s.len() {
                assert(s[end] == rest[0]);
            }
            lemma_atom_end(s, i, end);
            assert(!ends_atom(s[i]));
            assert(s.subrange(i, end) =~= text);
        },
        Tree::Text(text) => {
            assert(s[i] == '"');
            let front = head + seq!['"'];
            assert(s =~= front + escaped(text) + seq!['"'] + rest);
            law_an_escaped_string_reads_back(front, text, rest);
        },
        Tree::List(items) => {
            assert(s[i] == '(');
            let front = head + seq!['('];
            assert(s =~= front + printed_items(items) + rest);
            lemma_items_read_back(front, items, rest);
        },
    }
}

proof fn lemma_items_read_back(head: Seq<char>, items: Seq<Tree>, rest: Seq<char>)
    requires
        are_printable(items),
    ensures
        items_at(head + printed_items(items) + rest, head.len() as int) == Some(
            (items, (head.len() + printed_items(items).len()) as int),
        ),
    decreases items,
{
    let s = head + printed_items(items) + rest;
    let i = head.len() as int;
    let len = s.len() as int;
    if items.len() == 0 {
        assert(s[i] == ')');
        assert(!is_white_space(')'));
        assert(white_end(s, i, len) == i);
        assert(items =~= Seq::<Tree>::empty());
    } else {
        let first = items[0];
        let others = items.subrange(1, items.len() as int);
        let text = printed(first);
        let behind = seq![' '] + printed_items(others) + rest;
        assert(is_printable(items[0]));
        lemma_printed_front(first);
        assert(s =~= head + text + behind);
        assert(s[i] == text[0]);
        assert(white_end(s, i, len) == i);
        law_a_written_tree_reads_back(head, first, behind);
        let k = i + text.len();
        let front = head + text + seq![' '];
        assert(s =~= front + printed_items(others) + rest);
        lemma_items_read_back(front, others, rest);
        // The space before what follows is passed over.
        assert(s[k] == ' ');
        assert(white_end(s, k, len) == white_end(s, k + 1, len));
        lemma_white_end(s, k + 1, len);
        assert(items_at(s, k) == items_at(s, k + 1));
        assert(items =~= seq![first] + others);
    }
}

/// A document that is written as a tree reads as that tree, with any white space
/// around it.
pub proof fn law_a_written_document_reads_back(before: Seq<char>, tree: Tree, after: Seq<char>)
    requires
        is_printable(tree),
        forall|k: int| 0 <= k < before.len() ==> is_white_space(#[trigger] before[k]),
        forall|k: int| 0 <= k < after.len() ==> is_white_space(#[trigger] after[k]),
    ensures
        document(before + printed(tree) + after) == Some(tree),
{
    let s = before + printed(tree) + after;
    let i = before.len() as int;
    let end = i + printed(tree).len();
    lemma_printed_front(tree);
    lemma_white_end(s, 0, s.len() as int);
    let j = white_end(s, 0, s.len() as int);
    if j < i {
        assert(s[j] == before[j]);
    }
    assert(s[i] == printed(tree)[0]);
    assert(j == i);
    if after.len() > 0 {
        assert(is_white_space(after[0]));
    }
    law_a_written_tree_reads_back(before, tree, after);
    lemma_white_end(s, end, s.len() as int);
    let k = white_end(s, end, s.len() as int);
    if k < s.len() {
        assert(s[k] == after[k - end]);
    }
}

/// What follows a document makes it none: something other than white space behind the
/// expression is refused, and so is a text without any expression.
pub proof fn law_a_document_is_one_expression(tree: Tree, after: Seq<char>, k: int)
    requires
        is_printable(tree),
        0 <= k < after.len(),
        !is_white_space(after[k]),
        ends_atom(after[0]),
        forall|i: int| 0 <= i < k ==> is_white_space(#[trigger] after[i]),
    ensures
        document(printed(tree) + after) is None,
        document(Seq::<char>::empty()) is None,
{
    let none = Seq::<char>::empty();
    let s = printed(tree) + after;
    let end = printed(tree).len() as int;
    assert(none + printed(tree) + after =~= s);
    lemma_printed_front(tree);
    assert(s[0] == printed(tree)[0]);
    assert(white_end(s, 0, s.len() as int) == 0);
    law_a_written_tree_reads_back(none, tree, after);
    lemma_white_end(s, end, s.len() as int);
    let j = white_end(s, end, s.len() as int);
    if j > end + k {
        assert(s[end + k] == after[k]);
    }
}

/// An atom ends at white space, at a parenthesis and at a quote, and nowhere else.
pub proof fn law_where_an_atom_ends(c: char)
    ensures
        ends_atom(c) <==> is_white_space(c) || c == '(' || c == ')' || c == '"',
{
}

} // verus!
