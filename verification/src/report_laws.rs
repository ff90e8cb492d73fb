//! What an edit says of itself, and where it puts what it writes.

use crate::annotation::{annotated, note_property};
use crate::board_laws::lemma_patch_woven;
use crate::component_edit::{
    appended, at_clause, effects_clause, entries_set, entry_count, escaped, fields_set,
    has_property, hidden_property, lower_case, property_indent, reference_set, refused, renamed,
    reserved, rewritten, token_end, two_tokens, updated_field, with_value, EditRequest, EditState,
    FieldRequest,
};
use crate::edit_laws::lemma_match_in_part;
use crate::scan::{child_tagged, node_text, Node};
use crate::structure::{is_flat, is_node, lemma_before_close, lemma_node_is_block, node_texts};
use crate::swap_laws::woven;
use crate::symbols::{
    instance_block, instance_blocks, instance_entry, lemma_instance_blocks, property_marker,
};
use crate::text::{
    contains_text, count_from, decimal, first_char, first_match, indent, is_white_space,
    joined_texts, last_char, lemma_first_char, lemma_first_match, lemma_last_char, lemma_white_end,
    line_start, occurs_at, replaced_from, white_end,
};
use vstd::prelude::*;

verus! {

// ─── Updating a property ─────────────────────────────────────────────────────

/// An update changes one value: what stands between the quotes of the first property
/// of that name in the symbol's block. All text before and after it stays.
pub proof fn law_an_update_changes_one_value(
    s: Seq<char>,
    reference: Seq<char>,
    field: Seq<char>,
    new_val: Seq<char>,
) -> (range: (int, int))
    requires
        updated_field(s, reference, field, new_val) is Ok,
    ensures
        ({
            let (at, end) = range;
            let opening = "(property \""@ + field + "\" \""@;
            let m = at - opening.len();
            &&& instance_block(s, reference) matches Some(n) && n.start <= m && at <= n.end + 1 && {
                forall|k: int| n.start <= k < m ==> !#[trigger] occurs_at(s, k, opening)
            }
            &&& occurs_at(s, m, opening)
            &&& at <= end < s.len()
            &&& s[end] == '"'
            &&& forall|k: int| at <= k < end ==> s[k] != '"'
            &&& updated_field(s, reference, field, new_val) == Ok::<Seq<char>, Seq<char>>(
                s.take(at) + new_val + s.skip(end),
            )
        }),
{
    lemma_instance_blocks(s, reference);
    let n = instance_block(s, reference)->0;
    assert(is_node(s, instance_blocks(s, reference)[0]));
    let marker = property_marker(field);
    reveal_strlit("(property \"");
    lemma_first_match(s, n.start, n.end + 1, marker);
    let m = first_match(s, n.start, n.end + 1, marker)->0;
    let at = m + marker.len();
    lemma_first_char(s, at, s.len() as int, '"');
    let end = first_char(s, at, s.len() as int, '"')->0;
    (at, end)
}

/// A value cannot be set where no symbol shows the reference, where the symbol has no
/// such property, or where the value is never closed, and each is said as it is.
pub proof fn law_why_a_value_cannot_be_set(
    s: Seq<char>,
    reference: Seq<char>,
    field: Seq<char>,
    new_val: Seq<char>,
)
    ensures
        match instance_block(s, reference) {
            None => updated_field(s, reference, field, new_val) == Err::<Seq<char>, Seq<char>>(
                "symbol '"@ + reference + "' not found in this schematic"@,
            ),
            Some(n) => {
                let opening = "(property \""@ + field + "\" \""@;
                &&& !contains_text(node_text(s, n), opening) ==> updated_field(
                    s,
                    reference,
                    field,
                    new_val,
                ) == Err::<Seq<char>, Seq<char>>(
                    "'"@ + reference + "' has no '"@ + field + "' property"@,
                )
                &&& contains_text(node_text(s, n), opening) ==> {
                    ||| updated_field(s, reference, field, new_val) is Ok
                    ||| updated_field(s, reference, field, new_val) == Err::<Seq<char>, Seq<char>>(
                        "'"@ + field + "' property on '"@ + reference + "' is malformed"@,
                    ) && !s.skip(n.end + 1).contains('"')
                }
            },
        },
{
    if let Some(n) = instance_block(s, reference) {
        lemma_instance_blocks(s, reference);
        assert(is_node(s, instance_blocks(s, reference)[0]));
        let b = node_text(s, n);
        let marker = property_marker(field);
        reveal_strlit("(property \"");
        lemma_match_in_part(s, n.start, n.end + 1, 0, marker);
        lemma_first_match(b, 0, b.len() as int, marker);
        lemma_first_match(s, n.start, n.end + 1, marker);
        if let Some(m) = first_match(s, n.start, n.end + 1, marker) {
            assert(occurs_at(b, m - n.start, marker));
            let at = m + marker.len();
            lemma_first_char(s, at, s.len() as int, '"');
            let tail = s.skip(n.end + 1);
            if first_char(s, at, s.len() as int, '"') is None && tail.contains('"') {
                let k = choose|k: int| 0 <= k < tail.len() && tail[k] == '"';
                assert(s[n.end + 1 + k] == '"');
            }
        } else if contains_text(b, marker) {
            let k = choose|k: int| #[trigger] occurs_at(b, k, marker);
            assert(occurs_at(b, k, marker));
        }
    }
}

// ─── Adding a property ───────────────────────────────────────────────────────

/// A property is added as the last thing of the symbol's block, before its closing
/// parenthesis: on lines of its own, indented as the symbol's properties are, with
/// the value escaped, anchored where it was asked for, and hidden. The rest of the
/// schematic stays.
pub proof fn law_an_added_property_is_anchored_and_hidden(
    s: Seq<char>,
    reference: Seq<char>,
    name: Seq<char>,
    value: Seq<char>,
    x: Seq<char>,
    y: Seq<char>,
) -> (text: Seq<char>)
    requires
        instance_block(s, reference) is Some,
    ensures
        ({
            let n = instance_block(s, reference)->0;
            let margin = property_indent(node_text(s, n));
            let opening = "\n"@ + margin + "(property \""@ + name + "\" \""@ + escaped(value)
                + "\"\n"@ + margin + "\t(at "@ + x + " "@ + y + " 0)\n"@ + margin
                + "\t(hide yes)\n"@ + margin + "\t(effects\n"@;
            &&& appended(s, reference, name, value, Some((x, y))) == Ok::<Seq<char>, Seq<char>>(
                s.take(n.end) + text + s.skip(n.end),
            )
            &&& s[n.end] == ')'
            &&& opening.len() < text.len()
            &&& text.take(opening.len() as int) == opening
            &&& text.last() == ')'
        }),
{
    let n = instance_block(s, reference)->0;
    lemma_instance_blocks(s, reference);
    assert(is_node(s, instance_blocks(s, reference)[0]));
    lemma_node_is_block(s, n.start, n.end);
    lemma_before_close(node_text(s, n));
    let margin = property_indent(node_text(s, n));
    let text = hidden_property(margin, name, value, (x, y));
    let tail = lemma_hidden_property(margin, name, value, x, y);
    let opening = "\n"@ + margin + "(property \""@ + name + "\" \""@ + escaped(value) + "\"\n"@
        + margin + "\t(at "@ + x + " "@ + y + " 0)\n"@ + margin + "\t(hide yes)\n"@ + margin
        + "\t(effects\n"@;
    assert((opening + tail).take(opening.len() as int) =~= opening);
    text
}

/// What a hidden property starts with, and what it ends in.
#[verifier::spinoff_prover]
#[verifier::rlimit(60)]
proof fn lemma_hidden_property(
    margin: Seq<char>,
    name: Seq<char>,
    value: Seq<char>,
    x: Seq<char>,
    y: Seq<char>,
) -> (tail: Seq<char>)
    ensures
        tail.len() > 0,
        tail.last() == ')',
        hidden_property(margin, name, value, (x, y)) == "\n"@ + margin + "(property \""@ + name
            + "\" \""@ + escaped(value) + "\"\n"@ + margin + "\t(at "@ + x + " "@ + y + " 0)\n"@
            + margin + "\t(hide yes)\n"@ + margin + "\t(effects\n"@ + tail,
{
    reveal_strlit("\t(at ");
    reveal_strlit("(at ");
    reveal_strlit("\t");
    reveal_strlit(" 0)\n");
    reveal_strlit(" 0)");
    reveal_strlit("\n");
    reveal_strlit("\t(effects\n");
    reveal_strlit("(effects\n");
    reveal_strlit(")");
    let inner = margin + "\t\t(font\n"@ + margin + "\t\t\t(size 1.27 1.27)\n"@ + margin
        + "\t\t)\n"@ + margin + "\t)"@;
    assert(effects_clause(margin) =~= "(effects\n"@ + inner);
    assert("\t"@ + "(effects\n"@ =~= "\t(effects\n"@);
    assert("\t"@ + "(at "@ =~= "\t(at "@);
    assert(" 0)"@ + "\n"@ =~= " 0)\n"@);
    let tail = inner + "\n"@ + margin + ")"@;
    let front = "(property \""@ + name + "\" \""@ + escaped(value) + "\"\n"@ + margin;
    let at = "\t(at "@ + x + " "@ + y + " 0)\n"@;
    let middle = margin + "\t(hide yes)\n"@ + margin;
    assert("\t"@ + at_clause((x, y)) + "\n"@ =~= at);
    let node = "(property \""@ + name + "\" \""@ + escaped(value) + "\"\n"@ + margin + "\t"@
        + at_clause((x, y)) + "\n"@ + margin + "\t(hide yes)\n"@ + margin + "\t"@
        + effects_clause(margin) + "\n"@ + margin + ")"@;
    assert(node =~= front + ("\t"@ + at_clause((x, y)) + "\n"@) + middle + ("\t"@ + (
    "(effects\n"@ + inner)) + "\n"@ + margin + ")"@);
    assert("\t"@ + ("(effects\n"@ + inner) =~= "\t(effects\n"@ + inner);
    assert(node =~= front + at + middle + "\t(effects\n"@ + tail);
    assert("\n"@ + margin + node =~= "\n"@ + margin + "(property \""@ + name + "\" \""@ + escaped(
        value,
    ) + "\"\n"@ + margin + "\t(at "@ + x + " "@ + y + " 0)\n"@ + margin + "\t(hide yes)\n"@
        + margin + "\t(effects\n"@ + tail);
    tail
}

/// A property cannot be added where no symbol shows the reference, or where it is not
/// known where to put it.
pub proof fn law_why_a_property_cannot_be_added(
    s: Seq<char>,
    reference: Seq<char>,
    name: Seq<char>,
    value: Seq<char>,
    anchor: Option<(Seq<char>, Seq<char>)>,
)
    ensures
        instance_block(s, reference) is None ==> appended(s, reference, name, value, anchor)
            == Err::<Seq<char>, Seq<char>>(
            "symbol '"@ + reference + "' not found in this schematic"@,
        ),
        instance_block(s, reference) is Some && anchor is None ==> appended(
            s,
            reference,
            name,
            value,
            anchor,
        ) == Err::<Seq<char>, Seq<char>>("'"@ + reference + "' has no readable (at …) placement"@),
        instance_block(s, reference) is Some && anchor is Some ==> appended(
            s,
            reference,
            name,
            value,
            anchor,
        ) is Ok,
{
}

/// Escaping puts a backslash before every backslash and every quote, and leaves all
/// other characters.
pub proof fn law_quotes_and_backslashes_are_escaped(a: Seq<char>, c: char, b: Seq<char>)
    ensures
        escaped(a.push(c) + b) == escaped(a) + (if c == '\\' || c == '"' {
            seq!['\\', c]
        } else {
            seq![c]
        }) + escaped(b),
        escaped(Seq::<char>::empty()).len() == 0,
    decreases b.len(),
{
    let one: Seq<char> = if c == '\\' || c == '"' {
        seq!['\\', c]
    } else {
        seq![c]
    };
    if b.len() == 0 {
        assert(a.push(c) + b =~= a.push(c));
        assert(a.push(c).drop_last() =~= a);
        assert(escaped(a.push(c)) =~= escaped(a) + one);
        assert(escaped(a) + one + escaped(b) =~= escaped(a) + one);
    } else {
        let front = b.drop_last();
        law_quotes_and_backslashes_are_escaped(a, c, front);
        assert((a.push(c) + b).drop_last() =~= a.push(c) + front);
        assert((a.push(c) + b).last() == b.last());
        assert(escaped(a.push(c) + b) =~= escaped(a) + one + escaped(b));
    }
}

/// A symbol's properties are indented as the line of its first property is.
pub proof fn law_properties_keep_their_indent(
    head: Seq<char>,
    margin: Seq<char>,
    rest: Seq<char>,
)
    requires
        forall|k: int|
            0 <= k < margin.len() ==> is_white_space(#[trigger] margin[k]) && margin[k] != '\n',
        forall|k: int| 0 <= k < head.len() ==> !#[trigger] occurs_at(
            head + seq!['\n'] + margin + "(property "@ + rest,
            k,
            "(property "@,
        ),
    ensures
        property_indent(head + seq!['\n'] + margin + "(property "@ + rest) == margin,
{
    let pat = "(property "@;
    reveal_strlit("(property ");
    let b = head + seq!['\n'] + margin + pat + rest;
    let p = (head.len() + 1 + margin.len()) as int;
    let len = b.len() as int;
    lemma_first_match(b, 0, len, pat);
    assert(b.subrange(p, p + pat.len()) =~= pat);
    assert(occurs_at(b, p, pat));
    assert forall|k: int| 0 <= k < p implies !#[trigger] occurs_at(b, k, pat) by {
        if occurs_at(b, k, pat) {
            assert(b.subrange(k, k + pat.len())[0] == b[k]);
            if k > head.len() {
                assert(b[k] == margin[k - head.len() - 1]);
            }
        }
    }
    let found = first_match(b, 0, len, pat)->0;
    assert(found == p);
    law_a_line_keeps_its_indent(head, margin, pat + rest, 0);
    assert(head + seq!['\n'] + margin + (pat + rest) =~= b);
}

/// The indentation of a line is the white space that it starts with.
pub proof fn law_a_line_keeps_its_indent(
    head: Seq<char>,
    margin: Seq<char>,
    rest: Seq<char>,
    k: int,
)
    requires
        forall|i: int|
            0 <= i < margin.len() ==> is_white_space(#[trigger] margin[i]) && margin[i] != '\n',
        0 <= k <= rest.len(),
        rest.len() > 0 ==> !is_white_space(rest[0]),
        forall|i: int| 0 <= i < k ==> #[trigger] rest[i] != '\n',
    ensures
        indent(
            head + seq!['\n'] + margin + rest,
            (head.len() + 1 + margin.len() + k) as int,
        ) == margin,
{
    let s = head + seq!['\n'] + margin + rest;
    let at = (head.len() + 1 + margin.len() + k) as int;
    let start = (head.len() + 1) as int;
    lemma_last_char(s, 0, at, '\n');
    assert(s[head.len() as int] == '\n');
    let p = last_char(s, 0, at, '\n')->0;
    if p > head.len() {
        if p < start + margin.len() {
            assert(s[p] == margin[p - start]);
        } else {
            assert(s[p] == rest[p - start - margin.len()]);
        }
    }
    assert(line_start(s, at) == start);
    lemma_white_end(s, start, at);
    let e = white_end(s, start, at);
    let end = start + margin.len();
    if e < end {
        assert(s[e] == margin[e - start]);
    } else if e > end {
        assert(s[end] == rest[0]);
    }
    assert(s.subrange(start, e) =~= margin);
}

// ─── Where a symbol is placed ────────────────────────────────────────────────

/// Whether a text is white space only.
pub open spec fn is_blank(t: Seq<char>) -> bool {
    forall|k: int| 0 <= k < t.len() ==> is_white_space(#[trigger] t[k])
}

/// Whether a text is one token: something, and no white space in it.
pub open spec fn is_token(t: Seq<char>) -> bool {
    t.len() > 0 && forall|k: int| 0 <= k < t.len() ==> !is_white_space(#[trigger] t[k])
}

proof fn lemma_blank_run(s: Seq<char>, from: int, gap: Seq<char>, to: int)
    requires
        0 <= from,
        from + gap.len() <= to <= s.len(),
        s.subrange(from, from + gap.len()) == gap,
        is_blank(gap),
        from + gap.len() < to ==> !is_white_space(s[from + gap.len()]),
    ensures
        white_end(s, from, to) == from + gap.len(),
{
    lemma_white_end(s, from, to);
    let e = white_end(s, from, to);
    if e < from + gap.len() {
        assert(s.subrange(from, from + gap.len())[e - from] == s[e]);
    }
}

proof fn lemma_token_end(s: Seq<char>, from: int, to: int)
    requires
        0 <= from <= to <= s.len(),
    ensures
        from <= token_end(s, from, to) <= to,
        forall|k: int| from <= k < token_end(s, from, to) ==> !is_white_space(s[k]),
        token_end(s, from, to) < to ==> is_white_space(s[token_end(s, from, to)]),
    decreases to - from,
{
    if from < to && !is_white_space(s[from]) {
        lemma_token_end(s, from + 1, to);
    }
}

proof fn lemma_token_run(s: Seq<char>, from: int, token: Seq<char>, to: int)
    requires
        0 <= from,
        from + token.len() <= to <= s.len(),
        s.subrange(from, from + token.len()) == token,
        is_token(token),
        from + token.len() < to ==> is_white_space(s[from + token.len()]),
    ensures
        token_end(s, from, to) == from + token.len(),
{
    lemma_token_end(s, from, to);
    let e = token_end(s, from, to);
    if e < from + token.len() {
        assert(s.subrange(from, from + token.len())[e - from] == s[e]);
    }
}

/// The coordinates of a placement are its first two tokens, whatever white space
/// parts them and whatever follows.
pub proof fn law_coordinates_are_the_first_two_tokens(
    head: Seq<char>,
    first: Seq<char>,
    x: Seq<char>,
    second: Seq<char>,
    y: Seq<char>,
    rest: Seq<char>,
    tail: Seq<char>,
)
    requires
        is_blank(first),
        is_token(x),
        is_blank(second),
        second.len() > 0,
        is_token(y),
        rest.len() > 0 ==> is_white_space(rest[0]),
    ensures
        two_tokens(
            head + first + x + second + y + rest + tail,
            head.len() as int,
            (head.len() + first.len() + x.len() + second.len() + y.len() + rest.len()) as int,
        ) == Some((x, y)),
{
    let s = head + first + x + second + y + rest + tail;
    let from = head.len() as int;
    let a = from + first.len();
    let b = a + x.len();
    let c = b + second.len();
    let d = c + y.len();
    let to = d + rest.len();
    assert(s.subrange(from, a) =~= first);
    assert(s.subrange(a, b) =~= x);
    assert(s.subrange(b, c) =~= second);
    assert(s.subrange(c, d) =~= y);
    assert(s[a] == x[0] && s[b] == second[0] && s[c] == y[0]);
    if rest.len() > 0 {
        assert(s[d] == rest[0]);
    }
    lemma_blank_run(s, from, first, to);
    lemma_token_run(s, a, x, to);
    lemma_blank_run(s, b, second, to);
    lemma_token_run(s, c, y, to);
}

/// With fewer than two tokens there are no coordinates.
pub proof fn law_one_token_is_no_placement(
    head: Seq<char>,
    first: Seq<char>,
    x: Seq<char>,
    rest: Seq<char>,
    tail: Seq<char>,
)
    requires
        is_blank(first),
        is_token(x) || x.len() == 0 && rest.len() == 0,
        is_blank(rest),
    ensures
        two_tokens(
            head + first + x + rest + tail,
            head.len() as int,
            (head.len() + first.len() + x.len() + rest.len()) as int,
        ) is None,
{
    let s = head + first + x + rest + tail;
    let from = head.len() as int;
    let a = from + first.len();
    let b = a + x.len();
    let to = b + rest.len();
    assert(s.subrange(from, a) =~= first);
    assert(s.subrange(a, b) =~= x);
    assert(s.subrange(b, to) =~= rest);
    if x.len() > 0 {
        assert(s[a] == x[0]);
        if rest.len() > 0 {
            assert(s[b] == rest[0]);
        }
        lemma_blank_run(s, from, first, to);
        lemma_token_run(s, a, x, to);
        lemma_blank_run(s, b, rest, to);
    } else {
        lemma_blank_run(s, from, first, to);
    }
}

// ─── What is reported ────────────────────────────────────────────────────────

/// Setting a property is reported by its name and its new value, or by its name and
/// the reason why it could not be set. Nothing reported before is lost.
pub proof fn law_a_set_property_is_reported(state: EditState, field: Seq<char>, value: Seq<char>)
    ensures
        ({
            let after = state.set(field, value);
            &&& after.reference == state.reference
            &&& match updated_field(state.content, state.reference, field, value) {
                Ok(content) => {
                    &&& after.content == content
                    &&& after.changed == state.changed.push(field + " → "@ + value)
                    &&& after.errors == state.errors
                },
                Err(why) => {
                    &&& after.content == state.content
                    &&& after.changed == state.changed
                    &&& after.errors == state.errors.push(field + ": "@ + why)
                },
            }
        }),
{
}

/// A custom field is set where it exists, added where it does not, and refused where
/// its value is no string or its name is reserved; each is reported as it is.
pub proof fn law_a_custom_field_is_reported(
    state: EditState,
    name: Seq<char>,
    value: Seq<char>,
    anchor: Option<(Seq<char>, Seq<char>)>,
)
    ensures
        state.set_field(name, None, anchor).errors == state.errors.push(
            name + ": field values must be strings"@,
        ),
        state.set_field(name, None, anchor).content == state.content,
        state.set_field(name, None, anchor).changed == state.changed,
        reserved(name) ==> state.set_field(name, Some(value), anchor).errors == state.errors.push(
            name + ": set this through the '"@ + lower_case(name) + "' parameter, not 'fields'"@,
        ),
        !reserved(name) && has_property(state.content, state.reference, name) ==> state.set_field(
            name,
            Some(value),
            anchor,
        ) == state.set(name, value),
        !reserved(name) && !has_property(state.content, state.reference, name) ==> {
            let after = state.set_field(name, Some(value), anchor);
            &&& after.reference == state.reference
            &&& match appended(state.content, state.reference, name, value, anchor) {
                Ok(content) => {
                    &&& after.content == content
                    &&& after.changed == state.changed.push(name + " → "@ + value + " (added)"@)
                    &&& after.errors == state.errors
                },
                Err(why) => {
                    &&& after.content == state.content
                    &&& after.changed == state.changed
                    &&& after.errors == state.errors.push(name + ": "@ + why)
                },
            }
        },
{
}

/// A rename is reported in both places that a designator lives in, with how many
/// entries of the instances paths were rewritten, and goes on with the new
/// designator once the symbol shows it.
pub proof fn law_a_rename_is_reported(state: EditState, new_ref: Seq<char>)
    ensures
        ({
            let after = state.rename(new_ref);
            match renamed(state.content, state.reference, new_ref) {
                Err(why) => {
                    &&& after.reference == state.reference
                    &&& after.errors.len() > state.errors.len()
                    &&& after.errors[state.errors.len() as int] == "Reference: "@ + why
                },
                Ok(content) => {
                    &&& after.reference == new_ref
                    &&& after.changed.len() > state.changed.len()
                    &&& after.changed[state.changed.len() as int] == "Reference → "@ + new_ref
                    &&& match rewritten(content, state.reference, new_ref) {
                        Ok((text, count)) => {
                            &&& after.content == text
                            &&& after.changed.len() == state.changed.len() + 2
                            &&& after.changed.last() == "instances reference → "@ + new_ref + " ("@
                                + decimal(count) + ")"@
                            &&& after.errors == state.errors
                        },
                        Err(why) => {
                            &&& after.content == content
                            &&& after.changed.len() == state.changed.len() + 1
                            &&& after.errors == state.errors.push("instances reference: "@ + why)
                        },
                    }
                },
            }
        }),
{
    reveal_strlit("Reference");
    reveal_strlit(": ");
    reveal_strlit(" → ");
    reveal_strlit("Reference: ");
    reveal_strlit("Reference → ");
    assert("Reference"@ + ": "@ =~= "Reference: "@);
    assert("Reference"@ + " → "@ =~= "Reference → "@);
}

/// A rename fails where no symbol shows the old designator, and the rewriting where
/// none shows the new one or none of those has an entry for the old one.
pub proof fn law_why_a_rename_fails(s: Seq<char>, old_ref: Seq<char>, new_ref: Seq<char>)
    ensures
        renamed(s, old_ref, new_ref) is Ok <==> instance_blocks(s, old_ref).len() > 0,
        renamed(s, old_ref, new_ref) matches Err(why) ==> why == "symbol '"@ + old_ref
            + "' not found in this schematic"@,
        instance_blocks(s, new_ref).len() == 0 ==> rewritten(s, old_ref, new_ref) == Err::<
            (Seq<char>, nat),
            Seq<char>,
        >("symbol '"@ + old_ref + "' not found after the rename"@),
        rewritten(s, old_ref, new_ref) is Ok <==> instance_blocks(s, new_ref).len() > 0
            && entry_count(s, instance_blocks(s, new_ref), old_ref) > 0,
        rewritten(s, old_ref, new_ref) matches Ok(done) ==> done.1 == entry_count(
            s,
            instance_blocks(s, new_ref),
            old_ref,
        ),
        instance_blocks(s, new_ref).len() > 0 && entry_count(
            s,
            instance_blocks(s, new_ref),
            old_ref,
        ) == 0 ==> rewritten(s, old_ref, new_ref) == Err::<(Seq<char>, nat), Seq<char>>(
            "'"@ + new_ref + "' has no (reference \""@ + old_ref
                + "\") in its instances path — the property was renamed but the netlist still \
                    reads the old designator"@,
        ),
{
}

/// Exactly four properties have parameters of their own, each called by the name in
/// lower case.
pub proof fn law_reserved_names(name: Seq<char>)
    ensures
        reserved(name) <==> {
            ||| name == "Reference"@
            ||| name == "Value"@
            ||| name == "Footprint"@
            ||| name == "Datasheet"@
        },
        lower_case("Reference"@) == "reference"@,
        lower_case("Value"@) == "value"@,
        lower_case("Footprint"@) == "footprint"@,
        lower_case("Datasheet"@) == "datasheet"@,
{
    reveal_strlit("Reference");
    reveal_strlit("reference");
    reveal_strlit("Value");
    reveal_strlit("value");
    reveal_strlit("Footprint");
    reveal_strlit("footprint");
    reveal_strlit("Datasheet");
    reveal_strlit("datasheet");
    assert(lower_case("Reference"@) =~= "reference"@);
    assert(lower_case("Value"@) =~= "value"@);
    assert(lower_case("Footprint"@) =~= "footprint"@);
    assert(lower_case("Datasheet"@) =~= "datasheet"@);
}

/// Fields are set one after the other, in the order in which they are given: setting
/// two lists of them is setting the one and then the other.
pub proof fn law_fields_are_set_in_order(
    state: EditState,
    a: Seq<FieldRequest>,
    b: Seq<FieldRequest>,
)
    ensures
        fields_set(state, a + b) == fields_set(fields_set(state, a), b),
        fields_set(state, Seq::<FieldRequest>::empty()) == state,
        a.len() == 1 ==> fields_set(state, a) == state.set_field(
            a[0].name,
            a[0].value,
            a[0].anchor,
        ),
    decreases b.len(),
{
    if b.len() == 0 {
        assert(a + b =~= a);
    } else {
        law_fields_are_set_in_order(state, a, b.drop_last());
        assert((a + b).drop_last() =~= a + b.drop_last());
        assert((a + b).last() == b.last());
    }
    reveal_with_fuel(fields_set, 2);
}

/// A request that names nothing does nothing; one that names a single thing does just
/// that.
pub proof fn law_a_request_does_what_it_names(
    state: EditState,
    request: EditRequest,
    fields: Seq<FieldRequest>,
)
    ensures
        ({
            let quiet = request.value is None && request.footprint is None && request.datasheet
                is None;
            let after = state.applied(request, fields);
            &&& quiet && request.new_reference is None ==> after == fields_set(state, fields)
            &&& quiet && fields.len() == 0 ==> after == match request.new_reference {
                Some(text) => state.rename(text@),
                None => state,
            }
            &&& request.new_reference is None && fields.len() == 0 ==> {
                &&& request.footprint is None && request.datasheet is None ==> (
                request.value matches Some(text) ==> after == state.set("Value"@, text@))
                &&& request.value is None && request.datasheet is None ==> (
                request.footprint matches Some(text) ==> after == state.set("Footprint"@, text@))
                &&& request.value is None && request.footprint is None ==> (
                request.datasheet matches Some(text) ==> after == state.set("Datasheet"@, text@))
            }
        }),
{
}

/// A list of texts is put together with the separator between each two of them.
pub proof fn law_texts_are_joined_one_by_one(
    list: Seq<Seq<char>>,
    last: Seq<char>,
    separator: Seq<char>,
)
    ensures
        joined_texts(Seq::<Seq<char>>::empty(), separator).len() == 0,
        joined_texts(seq![last], separator) == last,
        list.len() > 0 ==> joined_texts(list.push(last), separator) == joined_texts(
            list,
            separator,
        ) + separator + last,
{
    assert(list.push(last).drop_last() =~= list);
}

/// A request that changed nothing is refused, with every reason that came up, in
/// order and parted by semicolons.
pub proof fn law_a_refusal_gives_every_reason(state: EditState)
    requires
        state.changed.len() == 0,
    ensures
        state.errors.len() == 0 ==> refused(state) == Some(
            "No fields were updated on '"@ + state.reference + "'"@,
        ),
        state.errors.len() > 0 ==> refused(state) == Some(
            "No fields were updated on '"@ + state.reference + "': "@ + joined_texts(
                state.errors,
                "; "@,
            ),
        ),
        forall|k: int|
            0 <= k < state.errors.len() ==> contains_text(
                refused(state)->0,
                #[trigger] state.errors[k],
            ),
{
    assert forall|k: int| 0 <= k < state.errors.len() implies contains_text(
        refused(state)->0,
        #[trigger] state.errors[k],
    ) by {
        lemma_joined_holds(state.errors, "; "@, k);
        let all = joined_texts(state.errors, "; "@);
        let head = "No fields were updated on '"@ + state.reference + "': "@;
        let at = choose|at: int| #[trigger] occurs_at(all, at, state.errors[k]);
        assert(occurs_at(all, at, state.errors[k]));
        let whole = refused(state)->0;
        assert(whole =~= head + all);
        let p = head.len() + at;
        assert(whole.subrange(p, p + state.errors[k].len()) =~= all.subrange(
            at,
            at + state.errors[k].len(),
        ));
        assert(occurs_at(whole, p, state.errors[k]));
    }
}

proof fn lemma_joined_holds(list: Seq<Seq<char>>, separator: Seq<char>, k: int)
    requires
        0 <= k < list.len(),
    ensures
        contains_text(joined_texts(list, separator), list[k]),
    decreases list.len(),
{
    let all = joined_texts(list, separator);
    if list.len() == 1 {
        assert(all.subrange(0, all.len() as int) =~= list[k]);
        assert(occurs_at(all, 0, list[k]));
    } else if k < list.len() - 1 {
        let front = list.drop_last();
        assert(front[k] == list[k]);
        lemma_joined_holds(front, separator, k);
        let some = joined_texts(front, separator);
        let at = choose|at: int| #[trigger] occurs_at(some, at, list[k]);
        assert(occurs_at(some, at, list[k]));
        assert(all.subrange(at, at + list[k].len()) =~= some.subrange(at, at + list[k].len()));
        assert(occurs_at(all, at, list[k]));
    } else {
        let at = all.len() - list[k].len();
        assert(all.subrange(at, at + list[k].len()) =~= list[k]);
        assert(occurs_at(all, at, list[k]));
    }
}

// ─── How many entries were rewritten ─────────────────────────────────────────

/// Where `pat` stands in `lo..hi`.
pub open spec fn places(s: Seq<char>, lo: int, hi: int, pat: Seq<char>) -> Set<int> {
    Set::new(|k: int| lo <= k && k + pat.len() <= hi && occurs_at(s, k, pat))
}

/// Every entry for a designator in a part of a text is counted, and each once.
pub proof fn law_every_entry_is_counted(s: Seq<char>, lo: int, hi: int, reference: Seq<char>)
    requires
        0 <= lo <= hi <= s.len(),
        is_flat(reference),
    ensures
        places(s, lo, hi, instance_entry(reference)).finite(),
        count_from(s, lo, hi, instance_entry(reference)) == places(
            s,
            lo,
            hi,
            instance_entry(reference),
        ).len(),
    decreases hi - lo,
{
    let pat = instance_entry(reference);
    reveal_strlit("(reference \"");
    reveal_strlit("\")");
    lemma_first_match(s, lo, hi, pat);
    match first_match(s, lo, hi, pat) {
        None => {
            assert(places(s, lo, hi, pat) =~= Set::<int>::empty());
        },
        Some(at) => {
            let next = at + pat.len();
            law_every_entry_is_counted(s, next, hi, reference);
            let rest = places(s, next, hi, pat);
            assert(!rest.contains(at));
            assert forall|k: int| at < k < next implies !#[trigger] occurs_at(s, k, pat) by {
                if occurs_at(s, k, pat) {
                    // A second entry would open inside the first.
                    assert(s.subrange(k, k + pat.len())[0] == s[k]);
                    assert(s.subrange(at, next)[k - at] == s[k]);
                    assert(pat[k - at] == '(');
                    if k - at >= 12 && k - at < 12 + reference.len() {
                        assert(pat[k - at] == reference[k - at - 12]);
                    }
                }
            }
            assert(places(s, lo, hi, pat) =~= rest.insert(at));
        },
    }
}

/// The entries of several blocks are those of each of them together.
pub proof fn law_entries_add_up(s: Seq<char>, ns: Seq<Node>, n: Node, reference: Seq<char>)
    ensures
        entry_count(s, Seq::<Node>::empty(), reference) == 0,
        entry_count(s, ns.push(n), reference) == entry_count(s, ns, reference) + count_from(
            s,
            n.start,
            n.end + 1,
            instance_entry(reference),
        ),
{
    assert(ns.push(n).drop_last() =~= ns);
}

/// Replacing puts the new text in the place of the old one, as often as that stands
/// there: the rest keeps its length.
pub proof fn law_replacing_is_counted(
    s: Seq<char>,
    from: int,
    hi: int,
    pat: Seq<char>,
    rep: Seq<char>,
)
    requires
        0 <= from <= hi <= s.len(),
        pat.len() > 0,
    ensures
        replaced_from(s, from, hi, pat, rep).len() == hi - from + count_from(s, from, hi, pat) * (
        rep.len() - pat.len()),
    decreases hi - from,
{
    lemma_first_match(s, from, hi, pat);
    if let Some(at) = first_match(s, from, hi, pat) {
        law_replacing_is_counted(s, at + pat.len(), hi, pat, rep);
        let count = count_from(s, at + pat.len(), hi, pat) as int;
        let gain = rep.len() - pat.len();
        assert(count_from(s, from, hi, pat) == 1 + count);
        assert((1 + count) * gain == gain + count * gain) by (nonlinear_arith);
        assert(replaced_from(s, from, hi, pat, rep) == s.subrange(from, at) + rep + replaced_from(
            s,
            at + pat.len(),
            hi,
            pat,
            rep,
        ));
    } else {
        assert(count_from(s, from, hi, pat) == 0);
        assert(replaced_from(s, from, hi, pat, rep) == s.subrange(from, hi));
        assert(0 * (rep.len() - pat.len()) == 0) by (nonlinear_arith);
    }
}

// ─── Annotations ─────────────────────────────────────────────────────────────

/// An annotation goes directly before the symbol's instances, or before its closing
/// parenthesis where it has none. It is a hidden property with the key and the value,
/// at the origin, and all other text stays.
pub proof fn law_an_annotation_goes_before_the_instances(
    s: Seq<char>,
    reference: Seq<char>,
    key: Seq<char>,
    value: Seq<char>,
) -> (note: Seq<char>)
    requires
        instance_block(s, reference) is Some,
    ensures
        ({
            let n = instance_block(s, reference)->0;
            let at = match child_tagged(node_text(s, n), "instances"@) {
                Some(child) => n.start + child.start,
                None => n.end,
            };
            &&& annotated(s, reference, key, value) == Some(s.take(at) + note + s.skip(at))
            &&& occurs_at(note, 4, "(property \""@ + key + "\" \""@ + value + "\""@)
            &&& contains_text(note, "(at 0 0 0)"@)
            &&& contains_text(note, "(hide yes)"@)
        }),
{
    let n = instance_block(s, reference)->0;
    lemma_instance_blocks(s, reference);
    assert(is_node(s, instance_blocks(s, reference)[0]));
    let note = note_property(key, value);
    let text = "(property \""@ + key + "\" \""@ + value + "\""@;
    let tail =
        "\"\n      (at 0 0 0)\n      (effects (font (size 1.27 1.27)) (hide yes))\n    )\n    "@;
    reveal_strlit("    (property \"");
    reveal_strlit("(property \"");
    reveal_strlit("\"");
    reveal_strlit("(at 0 0 0)");
    reveal_strlit("(hide yes)");
    reveal_strlit(
        "\"\n      (at 0 0 0)\n      (effects (font (size 1.27 1.27)) (hide yes))\n    )\n    ",
    );
    assert(note.subrange(4, (4 + text.len()) as int) =~= text);
    let p = note.len() - tail.len();
    assert(note.subrange(p + 8, p + 18) =~= "(at 0 0 0)"@);
    assert(occurs_at(note, p + 8, "(at 0 0 0)"@));
    assert(note.subrange(p + 58, p + 68) =~= "(hide yes)"@);
    assert(occurs_at(note, p + 58, "(hide yes)"@));
    note
}

// ─── Renaming, block by block ────────────────────────────────────────────────

/// A value is written between the quotes of the first property of that name, and
/// nothing else of the block changes.
pub proof fn law_a_value_is_written_between_its_quotes(
    head: Seq<char>,
    field: Seq<char>,
    old_val: Seq<char>,
    new_val: Seq<char>,
    rest: Seq<char>,
)
    requires
        !old_val.contains('"'),
        forall|k: int|
            0 <= k < head.len() ==> !#[trigger] occurs_at(
                head + property_marker(field) + old_val + seq!['"'] + rest,
                k,
                property_marker(field),
            ),
    ensures
        with_value(head + property_marker(field) + old_val + seq!['"'] + rest, field, new_val)
            == head + property_marker(field) + new_val + seq!['"'] + rest,
{
    let marker = property_marker(field);
    reveal_strlit("(property \"");
    let b = head + marker + old_val + seq!['"'] + rest;
    let m = head.len() as int;
    let at = m + marker.len();
    let end = at + old_val.len();
    lemma_first_match(b, 0, b.len() as int, marker);
    assert(b.subrange(m, at) =~= marker);
    assert(occurs_at(b, m, marker));
    assert(first_match(b, 0, b.len() as int, marker) == Some(m));
    lemma_first_char(b, at, b.len() as int, '"');
    assert(b[end] == '"');
    let close = first_char(b, at, b.len() as int, '"')->0;
    if close < end {
        assert(old_val[close - at] == b[close]);
    }
    assert(with_value(b, field, new_val) =~= head + marker + new_val + seq!['"'] + rest);
}

/// A rename writes the new designator into every placement that shows the old one,
/// and leaves all text between them.
pub proof fn law_a_rename_rewrites_each_placement(
    s: Seq<char>,
    old_ref: Seq<char>,
    new_ref: Seq<char>,
) -> (pieces: Seq<Seq<char>>)
    requires
        instance_blocks(s, old_ref).len() > 0,
    ensures
        ({
            let blocks = instance_blocks(s, old_ref);
            &&& pieces.len() == blocks.len() + 1
            &&& s == woven(pieces, node_texts(s, blocks))
            &&& renamed(s, old_ref, new_ref) == Ok::<Seq<char>, Seq<char>>(
                woven(
                    pieces,
                    blocks.map_values(
                        |n: Node| with_value(node_text(s, n), "Reference"@, new_ref),
                    ),
                ),
            )
        }),
{
    lemma_instance_blocks(s, old_ref);
    assert(s.subrange(0, s.len() as int) =~= s);
    let blocks = instance_blocks(s, old_ref);
    let f = |n: Node| with_value(node_text(s, n), "Reference"@, new_ref);
    assert(reference_set(s, new_ref) =~= f);
    lemma_patch_woven(s, 0, s.len() as int, blocks, reference_set(s, new_ref))
}

/// The rewriting of the instances paths reaches every placement that shows the new
/// designator, and leaves all text between them.
pub proof fn law_rewriting_rewrites_each_placement(
    s: Seq<char>,
    old_ref: Seq<char>,
    new_ref: Seq<char>,
) -> (pieces: Seq<Seq<char>>)
    requires
        rewritten(s, old_ref, new_ref) is Ok,
    ensures
        ({
            let blocks = instance_blocks(s, new_ref);
            &&& pieces.len() == blocks.len() + 1
            &&& s == woven(pieces, node_texts(s, blocks))
            &&& (rewritten(s, old_ref, new_ref)->Ok_0).0 == woven(
                pieces,
                blocks.map_values(
                    |n: Node|
                        replaced_from(
                            s,
                            n.start,
                            n.end + 1,
                            instance_entry(old_ref),
                            instance_entry(new_ref),
                        ),
                ),
            )
        }),
{
    lemma_instance_blocks(s, new_ref);
    assert(s.subrange(0, s.len() as int) =~= s);
    let blocks = instance_blocks(s, new_ref);
    let f = |n: Node|
        replaced_from(
            s,
            n.start,
            n.end + 1,
            instance_entry(old_ref),
            instance_entry(new_ref),
        );
    assert(entries_set(s, old_ref, new_ref) =~= f);
    lemma_patch_woven(s, 0, s.len() as int, blocks, entries_set(s, old_ref, new_ref))
}

/// Replacing takes each occurrence in turn, from left to right: what stands before
/// the first one stays, the new text stands in its place, and the rest is done
/// likewise. Without an occurrence nothing changes.
pub proof fn law_replacing_takes_each_in_turn(
    s: Seq<char>,
    from: int,
    hi: int,
    pat: Seq<char>,
    rep: Seq<char>,
    at: int,
)
    requires
        0 <= from <= hi <= s.len(),
        pat.len() > 0,
    ensures
        from <= at && at + pat.len() <= hi && occurs_at(s, at, pat) && (forall|k: int|
            from <= k < at ==> !#[trigger] occurs_at(s, k, pat)) ==> {
            &&& replaced_from(s, from, hi, pat, rep) == s.subrange(from, at) + rep + replaced_from(
                s,
                at + pat.len(),
                hi,
                pat,
                rep,
            )
            &&& count_from(s, from, hi, pat) == 1 + count_from(s, at + pat.len(), hi, pat)
        },
        (forall|k: int|
            from <= k && k + pat.len() <= hi ==> !#[trigger] occurs_at(s, k, pat)) ==> {
            &&& replaced_from(s, from, hi, pat, rep) == s.subrange(from, hi)
            &&& count_from(s, from, hi, pat) == 0
        },
{
    lemma_first_match(s, from, hi, pat);
}

/// Without a property to go by, a new one is indented by two tabs.
pub proof fn law_the_first_property_is_indented_by_tabs(b: Seq<char>)
    requires
        !contains_text(b, "(property "@),
    ensures
        property_indent(b) == seq!['\t', '\t'],
{
    reveal_strlit("(property ");
    reveal_strlit("\t\t");
    lemma_first_match(b, 0, b.len() as int, "(property "@);
    if let Some(p) = first_match(b, 0, b.len() as int, "(property "@) {
        assert(occurs_at(b, p, "(property "@));
    }
    assert("\t\t"@ =~= seq!['\t', '\t']);
}

/// Lower case is lower case for ASCII letters, one for one, and leaves the rest.
pub proof fn law_lower_case_leaves_the_rest(text: Seq<char>, k: int)
    requires
        0 <= k < text.len(),
    ensures
        lower_case(text).len() == text.len(),
        'A' <= text[k] <= 'Z' ==> lower_case(text)[k] as int == text[k] as int + 32,
        !('A' <= text[k] <= 'Z') ==> lower_case(text)[k] == text[k],
{
}

} // verus!
