//! What edits of a symbol's properties promise.

use crate::annotation::{annotated, note_property, property_place};
use crate::component_edit::{
    appended, at_clause, effects_clause, entries_set, escaped, fields_set, has_property,
    hidden_property, property_indent, reference_set, refused, renamed, reserved, rewritten,
    updated_field, with_value, EditRequest, EditState, FieldRequest,
};
use crate::scan::{
    child_tagged, close_from, node_text, nodes_in, outside, run, step, tag_at, tag_end, Lex, Node,
};
use crate::structure::{
    ends_tag, inside, is_blank, is_block, is_flat, is_level, is_node, is_plain_text, laid_out,
    lemma_before_close, lemma_blank_is_level, lemma_close_behind, lemma_close_none_same,
    lemma_close_same, lemma_exchange, lemma_laid_out_bounds, lemma_node_state, lemma_nodes_bounds,
    lemma_pass_blank, lemma_pass_concat, lemma_pass_flat, lemma_pass_plain, lemma_pass_prefix,
    lemma_patch_extend, lemma_patch_one, lemma_patch_top, lemma_run_same, lemma_run_split,
    lemma_run_wellformed, lemma_string_exchange, lemma_tag_end, lemma_tag_is, lemma_tag_of_block,
    lemma_tag_of_node, lemma_tagged, node_texts, passes, patch,
};
use crate::symbols::{
    instance_block, instance_blocks, instance_entry, lemma_showing_laid_out, lemma_symbols,
    property_marker, reference_property, showing, shows, symbols,
};
use crate::text::{
    contains_text, first_char, first_match, lemma_first_char, lemma_first_match,
    lemma_indent_is_blank, occurs_at, replaced_from,
};
use vstd::prelude::*;

verus! {

// ─── Nothing goes unreported ─────────────────────────────────────────────────

/// Every step of a request is reported, as a change or as an error. So a request
/// that set anything cannot come back as an empty success.
pub proof fn law_every_step_is_reported(
    state: EditState,
    name: Seq<char>,
    value: Option<Seq<char>>,
    anchor: Option<(Seq<char>, Seq<char>)>,
    text: Seq<char>,
)
    ensures
        ({
            let after = state.set_field(name, value, anchor);
            after.changed.len() + after.errors.len() == state.changed.len() + state.errors.len() + 1
        }),
        ({
            let after = state.set(name, text);
            after.changed.len() + after.errors.len() == state.changed.len() + state.errors.len() + 1
        }),
        ({
            let after = state.rename(text);
            after.changed.len() + after.errors.len() == state.changed.len() + state.errors.len() + 2
        }),
{
}

/// A request is refused as a whole exactly where it changed nothing: there is no
/// empty success.
pub proof fn law_no_empty_success(state: EditState)
    ensures
        refused(state) is Some <==> state.changed.len() == 0,
{
}

/// Whether what is done is never undone: what was changed and what failed stays
/// reported, and where nothing more is reported as changed, the content stays.
pub open spec fn goes_on(before: EditState, after: EditState) -> bool {
    &&& before.changed.len() <= after.changed.len()
    &&& before.errors.len() <= after.errors.len()
    &&& before.changed.len() == after.changed.len() ==> after.content == before.content
}

proof fn lemma_fields_go_on(state: EditState, fields: Seq<FieldRequest>)
    ensures
        goes_on(state, fields_set(state, fields)),
    decreases fields.len(),
{
    if fields.len() > 0 {
        lemma_fields_go_on(state, fields.drop_last());
    }
}

/// A request that is refused leaves the schematic as it was, whatever it asked
/// for: properties, custom fields, a rename.
pub proof fn law_refused_request_changes_nothing(
    state: EditState,
    request: EditRequest,
    fields: Seq<FieldRequest>,
)
    requires
        state.changed.len() == 0,
    ensures
        ({
            let after = state.applied(request, fields);
            refused(after) is Some ==> after.content == state.content
        }),
{
    let set = state.properties_set(request);
    assert(goes_on(state, set));
    lemma_fields_go_on(set, fields);
    let filled = fields_set(set, fields);
    assert(goes_on(filled, filled.rename_given(request.new_reference)));
}

/// A reserved name is refused among the custom fields: the schematic stays as it
/// is, and the refusal is reported.
pub proof fn law_reserved_fields_change_nothing(
    state: EditState,
    name: Seq<char>,
    value: Option<Seq<char>>,
    anchor: Option<(Seq<char>, Seq<char>)>,
)
    requires
        reserved(name),
    ensures
        state.set_field(name, value, anchor).content == state.content,
        state.set_field(name, value, anchor).changed == state.changed,
        state.set_field(name, value, anchor).errors.len() == state.errors.len() + 1,
{
}

/// What cannot be done changes nothing.
pub proof fn law_failed_steps_change_nothing(
    state: EditState,
    name: Seq<char>,
    value: Option<Seq<char>>,
    anchor: Option<(Seq<char>, Seq<char>)>,
)
    requires
        state.set_field(name, value, anchor).errors.len() > state.errors.len(),
    ensures
        state.set_field(name, value, anchor).content == state.content,
{
}

// ─── Reading a property ──────────────────────────────────────────────────────

/// The value of the property `field` of a symbol block, as it stands between its
/// quotes.
pub open spec fn value_of(b: Seq<char>, field: Seq<char>) -> Option<Seq<char>> {
    match first_match(b, 0, b.len() as int, property_marker(field)) {
        None => None,
        Some(m) => {
            let at = m + property_marker(field).len();
            match first_char(b, at, b.len() as int, '"') {
                None => None,
                Some(end) => Some(b.subrange(at, end)),
            }
        },
    }
}

/// Whether a symbol block has the property `field`, outside strings, with a value
/// that needs no escapes.
pub open spec fn holds_plainly(b: Seq<char>, field: Seq<char>) -> bool {
    &&& is_plain_text(field)
    &&& first_match(b, 0, b.len() as int, property_marker(field)) matches Some(m) && !run(
        outside(),
        b,
        0,
        m,
    ).quoted
    &&& value_of(b, field) matches Some(value) && is_plain_text(value)
}

/// What a property's marker is made of.
pub proof fn lemma_marker(field: Seq<char>)
    ensures
        ({
            let m = property_marker(field);
            &&& m.len() == field.len() + 14
            &&& m.subrange(0, 11) == "(property \""@
            &&& m[0] == '('
            &&& m[1] == 'p'
            &&& m[8] == 'y'
            &&& m[9] == ' '
            &&& m[10] == '"'
            &&& m.subrange(11, (11 + field.len()) as int) == field
            &&& m[(11 + field.len()) as int] == '"'
            &&& m[(12 + field.len()) as int] == ' '
            &&& m[(13 + field.len()) as int] == '"'
        }),
{
    reveal_strlit("(property \"");
    reveal_strlit("\" \"");
    let m = property_marker(field);
    assert(m.subrange(0, 11) =~= "(property \""@);
    assert(m.subrange(11, (11 + field.len()) as int) =~= field);
}

proof fn lemma_run_letters_out(l: Lex, u: Seq<char>, a: int, b: int)
    requires
        0 <= a <= b <= u.len(),
        !l.quoted,
        forall|k: int| a <= k < b ==> #[trigger] u[k] != '"' && u[k] != '(' && u[k] != ')',
    ensures
        run(l, u, a, b) == l,
    decreases b - a,
{
    if a < b {
        lemma_run_letters_out(l, u, a, b - 1);
        assert(u[b - 1] != '"' && u[b - 1] != '(' && u[b - 1] != ')');
    }
}

pub proof fn lemma_run_letters_in(l: Lex, u: Seq<char>, a: int, b: int)
    requires
        0 <= a <= b <= u.len(),
        l.quoted,
        !l.escaped,
        forall|k: int| a <= k < b ==> #[trigger] u[k] != '"' && u[k] != '\\',
    ensures
        run(l, u, a, b) == l,
    decreases b - a,
{
    if a < b {
        lemma_run_letters_in(l, u, a, b - 1);
        assert(u[b - 1] != '"' && u[b - 1] != '\\');
    }
}

/// Behind a property's marker the scanner stands in the value's string.
pub proof fn lemma_behind_marker(b: Seq<char>, m: int, field: Seq<char>)
    requires
        occurs_at(b, m, property_marker(field)),
        is_plain_text(field),
        !run(outside(), b, 0, m).quoted,
    ensures
        run(outside(), b, 0, m + property_marker(field).len()).quoted,
        !run(outside(), b, 0, m + property_marker(field).len()).escaped,
        forall|k: int|
            m < k < m + property_marker(field).len() ==> #[trigger] b[k] != '(' || run(
                outside(),
                b,
                0,
                k,
            ).quoted,
{
    let p = property_marker(field);
    let f = field.len() as int;
    let l = run(outside(), b, 0, m);
    let at = m + p.len();
    lemma_marker(field);
    reveal_strlit("(property \"");
    lemma_run_wellformed(outside(), b, 0, m);
    assert(b.subrange(m, at) == p);
    // The opening quote of the name.
    let l1 = Lex { depth: l.depth + 1, ..l };
    assert(p[0] == '(');
    assert(run(l, p, 0, 0) == l);
    assert(run(l, p, 0, 1) == step(run(l, p, 0, 0), p[0]));
    assert(run(l, p, 0, 1) == l1);
    lemma_run_split(l, p, 0, 1, 10);
    let head = p.subrange(0, 11);
    assert forall|k: int| 1 <= k < 10 implies #[trigger] p[k] != '"' && p[k] != '(' && p[k] != ')' by {
        assert(p[k] == head[k]);
    }
    lemma_run_letters_out(l1, p, 1, 10);
    let l2 = Lex { quoted: true, ..l1 };
    assert(run(l, p, 0, 11) == step(run(l, p, 0, 10), p[10]));
    assert(run(l, p, 0, 11) == l2);
    // The name.
    let name = p.subrange(11, 11 + f);
    assert forall|k: int| 11 <= k < 11 + f implies #[trigger] p[k] != '"' && p[k] != '\\' by {
        assert(p[k] == name[k - 11]);
    }
    lemma_run_split(l, p, 0, 11, 11 + f);
    lemma_run_letters_in(l2, p, 11, 11 + f);
    assert(run(l, p, 0, 12 + f) == step(run(l, p, 0, 11 + f), p[11 + f]));
    assert(run(l, p, 0, 13 + f) == step(run(l, p, 0, 12 + f), p[12 + f]));
    assert(run(l, p, 0, 14 + f) == step(run(l, p, 0, 13 + f), p[13 + f]));
    assert(run(l, p, 0, p.len() as int) == l2);
    assert(p.subrange(0, p.len() as int) =~= b.subrange(m, m + p.len()));
    lemma_run_same(l, p, 0, p.len() as int, b, m);
    lemma_run_split(outside(), b, 0, m, at);
    assert forall|k: int| m < k < at implies #[trigger] b[k] != '(' || run(
        outside(),
        b,
        0,
        k,
    ).quoted by {
        let j = k - m;
        assert(b[k] == p[j]);
        if b[k] == '(' {
            assert(11 <= j < 11 + f);
            lemma_run_split(l, p, 0, 11, j);
            lemma_run_letters_in(l2, p, 11, j);
            assert(p.subrange(0, j) =~= b.subrange(m, m + j));
            lemma_run_same(l, p, 0, j, b, m);
            lemma_run_split(outside(), b, 0, m, k);
        }
    }
}

/// Setting a property of a block: it stays a block with its tag, and the property
/// reads the new value.
pub proof fn lemma_with_value(b: Seq<char>, field: Seq<char>, new_val: Seq<char>)
    requires
        is_block(b),
        holds_plainly(b, field),
        is_plain_text(new_val),
    ensures
        is_block(with_value(b, field, new_val)),
        tag_at(with_value(b, field, new_val), 0) == tag_at(b, 0),
        value_of(with_value(b, field, new_val), field) == Some(new_val),
        first_match(b, 0, b.len() as int, property_marker(field)) == first_match(
            with_value(b, field, new_val),
            0,
            with_value(b, field, new_val).len() as int,
            property_marker(field),
        ),
{
    let p = property_marker(field);
    let c = with_value(b, field, new_val);
    let len = b.len() as int;
    lemma_marker(field);
    lemma_first_match(b, 0, len, p);
    let m = first_match(b, 0, len, p)->0;
    let at = m + p.len();
    lemma_first_char(b, at, len, '"');
    let end = first_char(b, at, len, '"')->0;
    let x = b.take(at);
    let u = b.subrange(at, end);
    let y = b.skip(end);
    assert(x + u + y =~= b);
    assert(c == x + new_val + y);
    lemma_behind_marker(b, m, field);
    assert(b.subrange(0, at) =~= x.subrange(0, at));
    lemma_run_same(outside(), b, 0, at, x, 0);
    lemma_string_exchange(x, u, y, new_val);
    // The tag stands before the value.
    lemma_tag_end(b, 1);
    let j = if m > 0 {
        m
    } else {
        9
    };
    assert(b.subrange(m, at)[0] == b[m]);
    assert(b.subrange(m, at)[9] == b[m + 9]);
    assert(ends_tag(b[j]));
    let e = tag_end(b, 1)->0;
    assert(e <= j < at);
    assert forall|k: int| 0 < k < e implies !ends_tag(#[trigger] c[k]) by {
        assert(c[k] == b[k]);
    }
    assert(c[e] == b[e]);
    lemma_tag_is(b, 0, e);
    lemma_tag_is(c, 0, e);
    assert(b.subrange(1, e) =~= c.subrange(1, e));
    // The marker comes first where it came first.
    let clen = c.len() as int;
    assert forall|k: int| 0 <= k <= m implies occurs_at(b, k, p) == #[trigger] occurs_at(
        c,
        k,
        p,
    ) by {
        assert(b.subrange(k, k + p.len()) =~= c.subrange(k, k + p.len()));
    }
    lemma_first_match(c, 0, clen, p);
    match first_match(c, 0, clen, p) {
        Some(other) => {
            if other < m {
                assert(occurs_at(c, other, p));
                assert(!occurs_at(b, other, p));
            } else if other > m {
                assert(occurs_at(b, m, p));
                assert(!occurs_at(c, m, p));
            }
        },
        None => {
            assert(occurs_at(b, m, p));
            assert(!occurs_at(c, m, p));
        },
    }
    // The value ends at the next quote.
    let close = at + new_val.len();
    assert(c[close] == b[end]);
    lemma_first_char(c, at, clen, '"');
    match first_char(c, at, clen, '"') {
        Some(q) => {
            if q < close {
                assert(c[q] == new_val[q - at]);
            }
        },
        None => {},
    }
    assert(c.subrange(at, close) =~= new_val);
}

// ─── Finding a placement again ───────────────────────────────────────────────

/// The first of `ns` that shows `reference` is the one that no earlier one
/// precedes.
pub proof fn lemma_first_showing(s: Seq<char>, ns: Seq<Node>, reference: Seq<char>, j: int)
    requires
        0 <= j < ns.len(),
        shows(node_text(s, ns[j]), reference),
        forall|i: int| 0 <= i < j ==> !shows(node_text(s, #[trigger] ns[i]), reference),
    ensures
        showing(s, ns, reference).len() > 0,
        showing(s, ns, reference)[0] == ns[j],
    decreases ns.len(),
{
    let front = ns.drop_last();
    if j < ns.len() - 1 {
        assert(front[j] == ns[j]);
        assert forall|i: int| 0 <= i < j implies !shows(
            node_text(s, #[trigger] front[i]),
            reference,
        ) by {
            assert(front[i] == ns[i]);
        }
        lemma_first_showing(s, front, reference, j);
    } else {
        lemma_none_showing(s, front, reference);
    }
}

pub proof fn lemma_none_showing(s: Seq<char>, ns: Seq<Node>, reference: Seq<char>)
    ensures
        (forall|i: int| 0 <= i < ns.len() ==> !shows(node_text(s, #[trigger] ns[i]), reference))
            <==> showing(s, ns, reference).len() == 0,
    decreases ns.len(),
{
    if ns.len() > 0 {
        let front = ns.drop_last();
        lemma_none_showing(s, front, reference);
        assert forall|i: int| 0 <= i < front.len() implies #[trigger] front[i] == ns[i] by {}
        if showing(s, ns, reference).len() == 0 {
            assert forall|i: int| 0 <= i < ns.len() implies !shows(
                node_text(s, #[trigger] ns[i]),
                reference,
            ) by {
                if i < front.len() {
                    assert(front[i] == ns[i]);
                }
            }
        } else if forall|i: int| 0 <= i < ns.len() ==> !shows(node_text(s, #[trigger] ns[i]), reference) {
            assert forall|i: int| 0 <= i < front.len() implies !shows(
                node_text(s, #[trigger] front[i]),
                reference,
            ) by {
                assert(front[i] == ns[i]);
            }
            assert(!shows(node_text(s, ns[ns.len() - 1]), reference));
        }
    }
}

/// Where among the symbols the first placement of `reference` stands.
pub proof fn lemma_instance_index(s: Seq<char>, reference: Seq<char>) -> (j: int)
    requires
        instance_block(s, reference) is Some,
    ensures
        0 <= j < symbols(s).len(),
        symbols(s)[j] == instance_block(s, reference)->0,
        is_node(s, symbols(s)[j]),
        shows(node_text(s, symbols(s)[j]), reference),
        forall|i: int| 0 <= i < j ==> !shows(node_text(s, #[trigger] symbols(s)[i]), reference),
{
    let ns = symbols(s);
    lemma_symbols(s);
    lemma_none_showing(s, ns, reference);
    let j = lemma_least_showing(s, ns, reference);
    lemma_first_showing(s, ns, reference, j);
    j
}

proof fn lemma_least_showing(s: Seq<char>, ns: Seq<Node>, reference: Seq<char>) -> (j: int)
    requires
        !(forall|i: int| 0 <= i < ns.len() ==> !shows(node_text(s, #[trigger] ns[i]), reference)),
    ensures
        0 <= j < ns.len(),
        shows(node_text(s, ns[j]), reference),
        forall|i: int| 0 <= i < j ==> !shows(node_text(s, #[trigger] ns[i]), reference),
    decreases ns.len(),
{
    let front = ns.drop_last();
    if forall|i: int| 0 <= i < front.len() ==> !shows(node_text(s, #[trigger] front[i]), reference) {
        assert forall|i: int| 0 <= i < ns.len() - 1 implies !shows(
            node_text(s, #[trigger] ns[i]),
            reference,
        ) by {
            assert(front[i] == ns[i]);
        }
        ns.len() - 1
    } else {
        let j = lemma_least_showing(s, front, reference);
        assert(front[j] == ns[j]);
        assert forall|i: int| 0 <= i < j implies !shows(
            node_text(s, #[trigger] ns[i]),
            reference,
        ) by {
            assert(front[i] == ns[i]);
        }
        j
    }
}

/// Replacing the first placement of `reference` by a symbol block that shows it:
/// what comes out has that block for the first placement, and every other symbol
/// as it was.
pub proof fn lemma_placement_replaced(s: Seq<char>, reference: Seq<char>, c: Seq<char>)
    requires
        instance_block(s, reference) is Some,
        is_block(c),
        tag_at(c, 0) == "symbol"@,
        shows(c, reference),
    ensures
        ({
            let n = instance_block(s, reference)->0;
            let t = s.take(n.start) + c + s.skip(n.end + 1);
            &&& instance_block(t, reference) is Some
            &&& node_text(t, instance_block(t, reference)->0) == c
            &&& symbols(t).len() == symbols(s).len()
            &&& forall|k: int|
                0 <= k < symbols(s).len() ==> node_text(t, #[trigger] symbols(t)[k]) == if symbols(
                    s,
                )[k] == n {
                    c
                } else {
                    node_text(s, symbols(s)[k])
                }
            &&& forall|k: int|
                0 <= k < symbols(s).len() && #[trigger] symbols(s)[k] == n ==> instance_block(
                    t,
                    reference,
                ) == Some(symbols(t)[k])
        }),
{
    let ns = symbols(s);
    let len = s.len() as int;
    let j = lemma_instance_index(s, reference);
    let n = ns[j];
    let f = |x: Node|
        if x == n {
            c
        } else {
            node_text(s, x)
        };
    let t = s.take(n.start) + c + s.skip(n.end + 1);
    lemma_symbols(s);
    lemma_tagged(s, nodes_in(s, 0, len, 1), "symbol"@);
    assert forall|k: int| 0 <= k < ns.len() implies is_block(f(#[trigger] ns[k])) && tag_at(
        f(ns[k]),
        0,
    ) == "symbol"@ by {
        lemma_tag_of_node(s, ns[k]);
    }
    lemma_patch_top(s, "symbol"@, f);
    assert forall|k: int| 0 <= k < ns.len() && k != j implies f(#[trigger] ns[k]) == node_text(
        s,
        ns[k],
    ) by {
        if ns[k] == n {
            lemma_laid_out_distinct(ns, 0, len, k, j);
        }
    }
    lemma_patch_one(s, 0, len, ns, j, f);
    assert(patch(s, 0, len, ns, f) =~= t);
    let ts = symbols(t);
    assert(node_texts(t, ts) == ns.map_values(f));
    assert(ts.len() == ns.len());
    assert(node_texts(t, ts)[j] == node_text(t, ts[j]));
    assert forall|i: int| 0 <= i < j implies !shows(node_text(t, #[trigger] ts[i]), reference) by {
        assert(node_texts(t, ts)[i] == node_text(t, ts[i]));
        assert(f(ns[i]) == node_text(s, ns[i]));
    }
    lemma_first_showing(t, ts, reference, j);
    assert forall|k: int| 0 <= k < ns.len() && #[trigger] ns[k] == n implies k == j by {
        if k != j {
            lemma_laid_out_distinct(ns, 0, len, k, j);
        }
    }
    assert forall|k: int| 0 <= k < ns.len() implies node_text(t, #[trigger] ts[k]) == f(ns[k]) by {
        assert(node_texts(t, ts)[k] == node_text(t, ts[k]));
    }
}

pub proof fn lemma_laid_out_distinct(ns: Seq<Node>, i: int, hi: int, a: int, b: int)
    requires
        laid_out(ns, i, hi),
        0 <= a < ns.len(),
        0 <= b < ns.len(),
        a != b,
    ensures
        ns[a] != ns[b],
    decreases ns.len(),
{
    let rest = ns.skip(1);
    if a == 0 {
        lemma_laid_out_bounds(rest, ns[0].end + 1, hi, b - 1);
        assert(rest[b - 1] == ns[b]);
    } else if b == 0 {
        lemma_laid_out_bounds(rest, ns[0].end + 1, hi, a - 1);
        assert(rest[a - 1] == ns[a]);
    } else {
        lemma_laid_out_distinct(rest, ns[0].end + 1, hi, a - 1, b - 1);
        assert(rest[a - 1] == ns[a]);
        assert(rest[b - 1] == ns[b]);
    }
}

// ─── Searching in a block ────────────────────────────────────────────────────

pub proof fn lemma_match_in_part(s: Seq<char>, a: int, b: int, i: int, pat: Seq<char>)
    requires
        0 <= a <= b <= s.len(),
        0 <= i,
    ensures
        first_match(s, a + i, b, pat) == (match first_match(s.subrange(a, b), i, b - a, pat) {
            Some(m) => Some(a + m),
            None => None,
        }),
    decreases b - a - i,
{
    let t = s.subrange(a, b);
    if i + pat.len() <= b - a && i < b - a {
        assert(t.subrange(i, i + pat.len()) =~= s.subrange(a + i, a + i + pat.len()));
        lemma_match_in_part(s, a, b, i + 1, pat);
    }
}

/// Updating a property is setting it in the first placement's block.
pub proof fn lemma_update_is_local(
    s: Seq<char>,
    reference: Seq<char>,
    field: Seq<char>,
    new_val: Seq<char>,
)
    requires
        instance_block(s, reference) is Some,
        value_of(node_text(s, instance_block(s, reference)->0), field) is Some,
    ensures
        ({
            let n = instance_block(s, reference)->0;
            updated_field(s, reference, field, new_val) == Ok::<Seq<char>, Seq<char>>(
                s.take(n.start) + with_value(node_text(s, n), field, new_val) + s.skip(n.end + 1),
            )
        }),
{
    let j = lemma_instance_index(s, reference);
    let n = instance_block(s, reference)->0;
    let a = n.start;
    let b = node_text(s, n);
    let p = property_marker(field);
    let len = b.len() as int;
    lemma_marker(field);
    lemma_match_in_part(s, a, n.end + 1, 0, p);
    lemma_first_match(b, 0, len, p);
    let m = first_match(b, 0, len, p)->0;
    let at = m + p.len();
    lemma_first_char(b, at, len, '"');
    let end = first_char(b, at, len, '"')->0;
    lemma_first_char(s, a + at, s.len() as int, '"');
    assert(s[a + end] == b[end]);
    let found = first_char(s, a + at, s.len() as int, '"')->0;
    if found < a + end {
        assert(b[found - a] == s[found]);
    }
    assert(found == a + end);
    assert(s.take(a + at) + new_val + s.skip(a + end) =~= s.take(a) + (b.take(at) + new_val
        + b.skip(end)) + s.skip(n.end + 1));
}

/// Whether a symbol block shows `reference` outside strings.
pub open spec fn shows_plainly(b: Seq<char>, reference: Seq<char>) -> bool {
    &&& is_plain_text(reference)
    &&& exists|k: int| #[trigger]
        occurs_at(b, k, reference_property(reference)) && !run(outside(), b, 0, k).quoted
}

/// Setting another property leaves a symbol's `Reference` property alone.
pub proof fn lemma_still_shows(
    b: Seq<char>,
    reference: Seq<char>,
    field: Seq<char>,
    new_val: Seq<char>,
)
    requires
        is_block(b),
        holds_plainly(b, field),
        field != "Reference"@,
        shows_plainly(b, reference),
    ensures
        shows(with_value(b, field, new_val), reference),
{
    let p = property_marker(field);
    let q = reference_property(reference);
    let c = with_value(b, field, new_val);
    let len = b.len() as int;
    lemma_marker(field);
    lemma_marker("Reference"@);
    reveal_strlit("Reference");
    reveal_strlit("\"");
    lemma_first_match(b, 0, len, p);
    let m = first_match(b, 0, len, p)->0;
    let at = m + p.len();
    lemma_first_char(b, at, len, '"');
    let end = first_char(b, at, len, '"')->0;
    let k = choose|k: int| #[trigger] occurs_at(b, k, q) && !run(outside(), b, 0, k).quoted;
    let e = k + q.len();
    assert(b.subrange(k, e) == q);
    lemma_behind_marker(b, m, field);
    assert forall|i: int| 0 <= i < q.len() implies #[trigger] q[i] == b[k + i] by {
        assert(b.subrange(k, e)[i] == b[k + i]);
    }
    assert forall|i: int| 0 <= i < p.len() implies #[trigger] p[i] == b[m + i] by {
        assert(b.subrange(m, at)[i] == b[m + i]);
    }
    let head = property_marker("Reference"@);
    assert(head.len() == 23);
    assert forall|i: int| 0 <= i < 23 implies #[trigger] q[i] == head[i] by {}
    assert(q.len() == 24 + reference.len());
    assert(q[q.len() - 1] == '"');
    if e <= at {
        assert(b.subrange(k, e) =~= c.subrange(k, e));
        assert(occurs_at(c, k, q));
    } else if k >= end {
        let d = new_val.len() - (end - at);
        assert(b.subrange(k, e) =~= c.subrange(k + d, e + d));
        assert(occurs_at(c, k + d, q));
    } else if k >= at {
        // The property would open inside the value.
        let u = b.subrange(at, k);
        assert forall|i: int| at <= i < k implies #[trigger] b[i] != '"' && b[i] != '\\' by {
            assert(value_of(b, field)->0[i - at] == b[i]);
        }
        lemma_run_letters_in(run(outside(), b, 0, at), b, at, k);
        lemma_run_split(outside(), b, 0, at, k);
        assert(false);
    } else {
        // The value would open inside the property.
        let o = at - 1 - k;
        assert(q[o] == '"');
        assert(b[at - 1] == p[p.len() - 1]);
        assert(b[at - 2] == p[p.len() - 2]);
        assert(b[at - 3] == p[p.len() - 3]);
        let name = head.subrange(11, 20);
        assert(name == "Reference"@);
        if o < 10 {
            let front = head.subrange(0, 11);
            reveal_strlit("(property \"");
            assert(q[o] == front[o]);
            assert(false);
        } else if o == 10 {
            assert(b[at - 3] == q[8]);
            assert(false);
        } else if o < 20 {
            assert(q[o] == name[o - 11]);
            assert(false);
        } else if o == 20 {
            assert(b[at - 2] == q[19]);
            assert(q[19] == name[8]);
            assert(false);
        } else if o == 21 {
            assert(q[21] == ' ');
            assert(false);
        } else if o == 22 {
            // Both names end at the same quote and hold none.
            let f = field.len() as int;
            let own = p.subrange(11, 11 + f);
            assert(own == field);
            if f >= 10 {
                assert(b[at - 13] == p[p.len() - 13]);
                assert(p[p.len() - 13] == own[p.len() - 13 - 11]);
                assert(b[at - 13] == q[10]);
                assert(false);
            }
            if f < 9 {
                assert(b[m + 10] == p[10]);
                assert(b[m + 10] == q[m + 10 - k]);
                assert(q[m + 10 - k] == name[m + 10 - k - 11]);
                assert(false);
            }
            assert(m == k);
            assert(own =~= name) by {
                assert forall|i: int| 0 <= i < 9 implies own[i] == name[i] by {
                    assert(p[11 + i] == own[i]);
                    assert(q[11 + i] == name[i]);
                    assert(b[m + (11 + i)] == p[11 + i]);
                    assert(b[k + (11 + i)] == q[11 + i]);
                }
            }
            assert(false);
        } else {
            assert(q[o] == reference[o - 23]);
            assert(false);
        }
    }
}

/// What is written to a property is what is read from it afterwards, and every
/// other symbol stays as it is.
pub proof fn law_updated_property_reads_back(
    s: Seq<char>,
    reference: Seq<char>,
    field: Seq<char>,
    new_val: Seq<char>,
)
    requires
        instance_block(s, reference) is Some,
        shows_plainly(node_text(s, instance_block(s, reference)->0), reference),
        holds_plainly(node_text(s, instance_block(s, reference)->0), field),
        is_plain_text(new_val),
        field != "Reference"@,
    ensures
        updated_field(s, reference, field, new_val) matches Ok(t) && {
            &&& instance_block(t, reference) is Some
            &&& value_of(node_text(t, instance_block(t, reference)->0), field) == Some(new_val)
            &&& symbols(t).len() == symbols(s).len()
            &&& forall|k: int|
                0 <= k < symbols(s).len() && Some(symbols(s)[k]) != instance_block(s, reference)
                    ==> node_text(t, #[trigger] symbols(t)[k]) == node_text(s, symbols(s)[k])
        },
{
    let n = instance_block(s, reference)->0;
    let b = node_text(s, n);
    let j = lemma_instance_index(s, reference);
    lemma_tag_of_node(s, n);
    lemma_tagged(s, nodes_in(s, 0, s.len() as int, 1), "symbol"@);
    lemma_update_is_local(s, reference, field, new_val);
    lemma_with_value(b, field, new_val);
    lemma_still_shows(b, reference, field, new_val);
    lemma_placement_replaced(s, reference, with_value(b, field, new_val));
}

// ─── Renaming reaches every unit ─────────────────────────────────────────────

/// Whether a symbol block has one `Reference` property, outside strings, with a
/// value that needs no escapes.
pub open spec fn has_one_reference(b: Seq<char>) -> bool {
    &&& holds_plainly(b, "Reference"@)
    &&& forall|k: int| #[trigger]
        occurs_at(b, k, property_marker("Reference"@)) ==> Some(k) == first_match(
            b,
            0,
            b.len() as int,
            property_marker("Reference"@),
        )
}

proof fn lemma_showing_front(s: Seq<char>, ns: Seq<Node>, reference: Seq<char>)
    requires
        ns.len() > 0,
    ensures
        showing(s, ns, reference) == (if shows(node_text(s, ns[0]), reference) {
            seq![ns[0]]
        } else {
            Seq::empty()
        }) + showing(s, ns.skip(1), reference),
    decreases ns.len(),
{
    let head = if shows(node_text(s, ns[0]), reference) {
        seq![ns[0]]
    } else {
        Seq::empty()
    };
    let rest = ns.skip(1);
    if ns.len() == 1 {
        assert(ns.drop_last() =~= Seq::<Node>::empty());
        assert(rest =~= Seq::<Node>::empty());
    } else {
        let front = ns.drop_last();
        lemma_showing_front(s, front, reference);
        assert(front.skip(1) =~= rest.drop_last());
        assert(rest.last() == ns.last());
    }
    assert(showing(s, ns, reference) =~= head + showing(s, rest, reference));
}

/// Leaving a node out of a patch is replacing it by itself.
pub proof fn lemma_patch_showing(
    s: Seq<char>,
    i: int,
    hi: int,
    ns: Seq<Node>,
    reference: Seq<char>,
    f: spec_fn(Node) -> Seq<char>,
    g: spec_fn(Node) -> Seq<char>,
)
    requires
        0 <= i,
        hi <= s.len(),
        laid_out(ns, i, hi),
        forall|k: int|
            0 <= k < ns.len() ==> g(#[trigger] ns[k]) == if shows(node_text(s, ns[k]), reference) {
                f(ns[k])
            } else {
                node_text(s, ns[k])
            },
    ensures
        patch(s, i, hi, showing(s, ns, reference), f) == patch(s, i, hi, ns, g),
    decreases ns.len(),
{
    if ns.len() > 0 {
        let rest = ns.skip(1);
        let n = ns[0];
        let picked = showing(s, rest, reference);
        assert forall|k: int| 0 <= k < rest.len() implies g(#[trigger] rest[k]) == if shows(
            node_text(s, rest[k]),
            reference,
        ) {
            f(rest[k])
        } else {
            node_text(s, rest[k])
        } by {
            assert(rest[k] == ns[k + 1]);
        }
        lemma_patch_showing(s, n.end + 1, hi, rest, reference, f, g);
        lemma_showing_front(s, ns, reference);
        assert(g(ns[0]) == g(n));
        if shows(node_text(s, n), reference) {
            let all = showing(s, ns, reference);
            assert(all[0] == n);
            assert(all.skip(1) =~= picked);
        } else {
            assert(showing(s, ns, reference) =~= picked);
            lemma_showing_laid_out(s, rest, reference, n.end + 1, hi);
            lemma_patch_extend(s, i, n.end + 1, hi, picked, f);
            assert(s.subrange(i, n.end + 1) =~= s.subrange(i, n.start) + node_text(s, n));
        }
    }
}

/// A placement that was renamed shows the new designator and not the old one.
#[verifier::rlimit(50)]
pub proof fn lemma_renamed_block(b: Seq<char>, old_ref: Seq<char>, new_ref: Seq<char>)
    requires
        is_block(b),
        has_one_reference(b),
        is_plain_text(old_ref),
        is_plain_text(new_ref),
        is_flat(new_ref),
        old_ref != new_ref,
    ensures
        shows(with_value(b, "Reference"@, new_ref), new_ref),
        !shows(with_value(b, "Reference"@, new_ref), old_ref),
{
    let field = "Reference"@;
    let p = property_marker(field);
    let c = with_value(b, field, new_ref);
    let len = b.len() as int;
    lemma_marker(field);
    reveal_strlit("Reference");
    reveal_strlit("\"");
    reveal_strlit("(property \"");
    lemma_first_match(b, 0, len, p);
    let m = first_match(b, 0, len, p)->0;
    let at = m + p.len();
    lemma_first_char(b, at, len, '"');
    let end = first_char(b, at, len, '"')->0;
    let close = at + new_ref.len();
    let d = close - end;
    assert(c[close] == b[end]);
    assert(b.subrange(m, at) == p);
    assert(c.subrange(m, close + 1) =~= reference_property(new_ref));
    assert(occurs_at(c, m, reference_property(new_ref)));
    assert forall|k: int| !#[trigger] occurs_at(c, k, reference_property(old_ref)) by {
        let q = reference_property(old_ref);
        if occurs_at(c, k, q) {
            let here = c.subrange(k, k + q.len());
            assert(here == q);
            assert(q.len() == p.len() + old_ref.len() + 1);
            assert(c.subrange(k, k + p.len()) =~= p) by {
                assert forall|i: int| 0 <= i < p.len() implies c[k + i] == p[i] by {
                    assert(here[i] == c[k + i]);
                    assert(q[i] == p[i]);
                }
            }
            assert(c[k] == '(') by {
                assert(c.subrange(k, k + p.len())[0] == c[k]);
            }
            if k < m || k == m {
                assert(b.subrange(k, k + p.len()) =~= c.subrange(k, k + p.len()));
                assert(occurs_at(b, k, p));
                assert(k == m);
                // The same place, with another value.
                let w = p.len() as int;
                assert forall|i: int| 0 <= i < old_ref.len() && i < new_ref.len() implies #[trigger] old_ref[i]
                    == new_ref[i] by {
                    assert(here[w + i] == c[k + (w + i)]);
                    assert(q[w + i] == old_ref[i]);
                    assert(c[at + i] == new_ref[i]);
                }
                let x = old_ref.len() as int;
                let y = new_ref.len() as int;
                if x < y {
                    assert(q[w + x] == '"');
                    assert(here[w + x] == c[k + (w + x)]);
                    assert(c[at + x] == new_ref[x]);
                } else if x > y {
                    assert(q[w + y] == old_ref[y]);
                    assert(here[w + y] == c[k + (w + y)]);
                    assert(c[close] == '"');
                } else {
                    assert(old_ref =~= new_ref);
                }
                assert(false);
            } else if k < at {
                // No parenthesis opens inside the marker.
                assert(c[k] == b[k]);
                assert(b.subrange(m, at)[k - m] == b[k]);
                assert(p[k - m] == '(');
                let head = p.subrange(0, 11);
                let name = p.subrange(11, 20);
                if k - m < 11 {
                    assert(head[k - m] == p[k - m]);
                } else if k - m < 20 {
                    assert(name[k - m - 11] == p[k - m]);
                }
                assert(false);
            } else if k < close {
                assert(c[k] == new_ref[k - at]);
                assert(false);
            } else {
                assert(c[close] == '"');
                assert(k > close);
                assert(b.subrange(k - d, k - d + p.len()) =~= c.subrange(k, k + p.len()));
                assert(occurs_at(b, k - d, p));
                assert(false);
            }
        }
    }
}

/// The symbols of a schematic in which every placement of `old_ref` was renamed.
pub proof fn lemma_renamed_texts(s: Seq<char>, old_ref: Seq<char>, new_ref: Seq<char>)
    requires
        instance_blocks(s, old_ref).len() > 0,
        forall|k: int|
            0 <= k < instance_blocks(s, old_ref).len() ==> has_one_reference(
                node_text(s, #[trigger] instance_blocks(s, old_ref)[k]),
            ),
        is_plain_text(new_ref),
    ensures
        renamed(s, old_ref, new_ref) matches Ok(t) && {
            &&& symbols(t).len() == symbols(s).len()
            &&& forall|k: int|
                0 <= k < symbols(s).len() ==> {
                    let before = node_text(s, symbols(s)[k]);
                    node_text(t, #[trigger] symbols(t)[k]) == if shows(before, old_ref) {
                        with_value(before, "Reference"@, new_ref)
                    } else {
                        before
                    }
                }
        },
{
    let ns = symbols(s);
    let len = s.len() as int;
    let f = reference_set(s, new_ref);
    let g = |n: Node|
        if shows(node_text(s, n), old_ref) {
            f(n)
        } else {
            node_text(s, n)
        };
    let t = patch(s, 0, len, instance_blocks(s, old_ref), f);
    lemma_symbols(s);
    lemma_tagged(s, nodes_in(s, 0, len, 1), "symbol"@);
    lemma_patch_showing(s, 0, len, ns, old_ref, f, g);
    assert forall|k: int| 0 <= k < ns.len() implies is_block(g(#[trigger] ns[k])) && tag_at(
        g(ns[k]),
        0,
    ) == "symbol"@ by {
        let n = ns[k];
        lemma_tag_of_node(s, n);
        if shows(node_text(s, n), old_ref) {
            lemma_placement_has_one_reference(s, old_ref, k);
            lemma_with_value(node_text(s, n), "Reference"@, new_ref);
        }
    }
    lemma_patch_top(s, "symbol"@, g);
    let ts = symbols(t);
    assert(node_texts(t, ts) == ns.map_values(g));
    assert(ts.len() == ns.len());
    assert forall|k: int| 0 <= k < ns.len() implies node_text(t, #[trigger] ts[k]) == g(ns[k]) by {
        assert(node_texts(t, ts)[k] == node_text(t, ts[k]));
    }
}

/// What holds of every placement of `reference` holds of a symbol that shows it.
pub proof fn lemma_placement_has_one_reference(s: Seq<char>, reference: Seq<char>, k: int)
    requires
        forall|j: int|
            0 <= j < instance_blocks(s, reference).len() ==> has_one_reference(
                node_text(s, #[trigger] instance_blocks(s, reference)[j]),
            ),
        0 <= k < symbols(s).len(),
        shows(node_text(s, symbols(s)[k]), reference),
    ensures
        has_one_reference(node_text(s, symbols(s)[k])),
{
    let n = symbols(s)[k];
    let all = instance_blocks(s, reference);
    lemma_showing_contains(s, symbols(s), reference, k);
    let j = choose|j: int| 0 <= j < all.len() && all[j] == n;
    assert(has_one_reference(node_text(s, all[j])));
}

/// Renaming the `Reference` property reaches every unit: afterwards no symbol shows
/// the old designator, and every placement that showed it shows the new one.
pub proof fn law_property_rename_reaches_every_unit(
    s: Seq<char>,
    old_ref: Seq<char>,
    new_ref: Seq<char>,
)
    requires
        instance_blocks(s, old_ref).len() > 0,
        forall|k: int|
            0 <= k < instance_blocks(s, old_ref).len() ==> has_one_reference(
                node_text(s, #[trigger] instance_blocks(s, old_ref)[k]),
            ),
        is_plain_text(old_ref),
        is_plain_text(new_ref),
        is_flat(new_ref),
        old_ref != new_ref,
    ensures
        renamed(s, old_ref, new_ref) matches Ok(t) && {
            &&& instance_blocks(t, old_ref).len() == 0
            &&& symbols(t).len() == symbols(s).len()
            &&& forall|k: int|
                0 <= k < symbols(s).len() && shows(node_text(s, #[trigger] symbols(s)[k]), old_ref)
                    ==> shows(node_text(t, symbols(t)[k]), new_ref)
        },
{
    let ns = symbols(s);
    let t = renamed(s, old_ref, new_ref)->Ok_0;
    let ts = symbols(t);
    lemma_renamed_texts(s, old_ref, new_ref);
    lemma_symbols(s);
    assert forall|k: int| 0 <= k < ts.len() implies !shows(node_text(t, #[trigger] ts[k]), old_ref)
        && (shows(node_text(s, ns[k]), old_ref) ==> shows(node_text(t, ts[k]), new_ref)) by {
        let n = ns[k];
        if shows(node_text(s, n), old_ref) {
            lemma_tag_of_node(s, n);
            lemma_placement_has_one_reference(s, old_ref, k);
            lemma_renamed_block(node_text(s, n), old_ref, new_ref);
        }
    }
    lemma_none_showing(t, ts, old_ref);
    assert forall|k: int|
        0 <= k < ns.len() && shows(node_text(s, #[trigger] ns[k]), old_ref) implies shows(
        node_text(t, ts[k]),
        new_ref,
    ) by {
        assert(shows(node_text(t, ts[k]), new_ref));
    }
}

pub proof fn lemma_showing_contains(s: Seq<char>, ns: Seq<Node>, reference: Seq<char>, k: int)
    requires
        0 <= k < ns.len(),
        shows(node_text(s, ns[k]), reference),
    ensures
        showing(s, ns, reference).contains(ns[k]),
    decreases ns.len(),
{
    let all = showing(s, ns, reference);
    let front = ns.drop_last();
    if k == ns.len() - 1 {
        assert(all.last() == ns[k]);
    } else {
        lemma_showing_contains(s, front, reference, k);
        let picked = showing(s, front, reference);
        let j = choose|j: int| 0 <= j < picked.len() && picked[j] == front[k];
        assert(all[j] == ns[k]);
    }
}

/// Once the instances path is rewritten, no entry of it keeps the old
/// designator.
pub proof fn law_no_entry_keeps_the_old_designator(
    s: Seq<char>,
    from: int,
    hi: int,
    old_ref: Seq<char>,
    new_ref: Seq<char>,
)
    requires
        0 <= from <= hi <= s.len(),
        is_flat(old_ref),
        is_flat(new_ref),
        old_ref != new_ref,
    ensures
        !contains_text(
            replaced_from(s, from, hi, instance_entry(old_ref), instance_entry(new_ref)),
            instance_entry(old_ref),
        ),
    decreases hi - from,
{
    let pat = instance_entry(old_ref);
    let rep = instance_entry(new_ref);
    let t = replaced_from(s, from, hi, pat, rep);
    lemma_entry(old_ref);
    lemma_entry(new_ref);
    lemma_first_match(s, from, hi, pat);
    match first_match(s, from, hi, pat) {
        Some(at) => {
            let gap = s.subrange(from, at);
            let rest = replaced_from(s, at + pat.len(), hi, pat, rep);
            law_no_entry_keeps_the_old_designator(s, at + pat.len(), hi, old_ref, new_ref);
            assert(t == gap + rep + rest);
            assert forall|k: int| !#[trigger] occurs_at(t, k, pat) by {
                if occurs_at(t, k, pat) {
                    let here = t.subrange(k, k + pat.len());
                    assert(here == pat);
                    let a = gap.len() as int;
                    let b = a + rep.len();
                    if k + pat.len() <= a {
                        assert(s.subrange(from + k, from + k + pat.len()) =~= here);
                        assert(occurs_at(s, from + k, pat));
                    } else if k < a {
                        assert(here[a - k] == t[a]);
                        assert(t[a] == rep[0]);
                        assert(pat[a - k] == '(');
                    } else if k == a {
                        assert(t.subrange(a, a + rep.len()) =~= rep);
                        lemma_entries_differ(old_ref, new_ref, t, a);
                    } else if k < b {
                        assert(t[k] == rep[k - a]);
                        assert(here[0] == t[k]);
                    } else {
                        assert(rest.subrange(k - b, k - b + pat.len()) =~= here);
                        assert(occurs_at(rest, k - b, pat));
                    }
                }
            }
        },
        None => {
            assert forall|k: int| !#[trigger] occurs_at(t, k, pat) by {
                if occurs_at(t, k, pat) {
                    assert(s.subrange(from + k, from + k + pat.len()) =~= t.subrange(
                        k,
                        k + pat.len(),
                    ));
                    assert(occurs_at(s, from + k, pat));
                }
            }
        },
    }
}

/// What an entry is made of.
pub proof fn lemma_entry(reference: Seq<char>)
    requires
        is_flat(reference),
    ensures
        ({
            let e = instance_entry(reference);
            &&& e.len() == reference.len() + 14
            &&& e[0] == '('
            &&& forall|k: int| 0 < k < e.len() ==> #[trigger] e[k] != '('
            &&& forall|k: int| 0 <= k < reference.len() ==> e[12 + k] == #[trigger] reference[k]
            &&& e[12 + reference.len() as int] == '"'
            &&& forall|k: int| 0 <= k < 12 ==> #[trigger] e[k] == "(reference \""@[k]
        }),
{
    reveal_strlit("(reference \"");
    reveal_strlit("\")");
    let e = instance_entry(reference);
    assert forall|k: int| 0 < k < e.len() implies #[trigger] e[k] != '(' by {
        if 12 <= k < 12 + reference.len() {
            assert(e[k] == reference[k - 12]);
        }
    }
}

proof fn lemma_entries_differ(
    old_ref: Seq<char>,
    new_ref: Seq<char>,
    t: Seq<char>,
    a: int,
)
    requires
        is_flat(old_ref),
        is_flat(new_ref),
        0 <= a,
        a + instance_entry(new_ref).len() <= t.len(),
        t.subrange(a, a + instance_entry(new_ref).len()) == instance_entry(new_ref),
        occurs_at(t, a, instance_entry(old_ref)),
    ensures
        old_ref == new_ref,
{
    let p = instance_entry(old_ref);
    let q = instance_entry(new_ref);
    let x = t.subrange(a, a + p.len());
    let y = t.subrange(a, a + q.len());
    lemma_entry(old_ref);
    lemma_entry(new_ref);
    let m = old_ref.len() as int;
    let n = new_ref.len() as int;
    assert forall|k: int| 0 <= k < p.len() && k < q.len() implies p[k] == q[k] by {
        assert(x[k] == t[a + k]);
        assert(y[k] == t[a + k]);
    }
    if m < n {
        assert(p[12 + m] == q[12 + m]);
        assert(q[12 + m] == new_ref[m]);
    } else if n < m {
        assert(p[12 + n] == q[12 + n]);
        assert(p[12 + n] == old_ref[n]);
    } else {
        assert forall|k: int| 0 <= k < m implies old_ref[k] == new_ref[k] by {
            assert(p[12 + k] == old_ref[k]);
            assert(q[12 + k] == new_ref[k]);
        }
        assert(old_ref =~= new_ref);
    }
}

// ─── Rewriting reaches every unit ────────────────────────────────────────────

/// Outside strings, with `depth` lists open.
spec fn out(depth: nat) -> Lex {
    Lex { depth, quoted: false, escaped: false }
}

/// In a string, with `depth` lists open.
spec fn quoted(depth: nat) -> Lex {
    Lex { depth, quoted: true, escaped: false }
}

proof fn lemma_pass_entry_open(l: Lex)
    requires
        l.depth >= 1,
        l.escaped ==> l.quoted,
    ensures
        passes(
            l,
            "(reference \""@,
            if l.quoted {
                out(l.depth)
            } else {
                quoted(l.depth + 1)
            },
        ),
{
    reveal(passes);
    reveal_strlit("(reference \"");
    reveal_with_fuel(run, 14);
    reveal_with_fuel(close_from, 14);
}

proof fn lemma_pass_entry_end(l: Lex)
    requires
        l.depth >= 1,
        l.quoted ==> l.depth >= 2,
        !l.escaped,
    ensures
        passes(
            l,
            "\")"@,
            if l.quoted {
                out((l.depth - 1) as nat)
            } else {
                quoted(l.depth)
            },
        ),
{
    reveal(passes);
    reveal_strlit("\")");
    reveal_with_fuel(run, 4);
    reveal_with_fuel(close_from, 4);
}

/// What the scanner makes of an entry does not depend on the reference in it.
pub proof fn lemma_pass_entry(l: Lex, reference: Seq<char>)
    requires
        l.depth >= 1,
        l.escaped ==> l.quoted,
        is_flat(reference),
        is_plain_text(reference),
    ensures
        passes(l, instance_entry(reference), Lex { escaped: false, ..l }),
{
    let open = "(reference \""@;
    let end = "\")"@;
    lemma_pass_entry_open(l);
    if l.quoted {
        let m = out(l.depth);
        lemma_pass_flat(m, reference);
        lemma_pass_concat(l, open, m, reference, m);
        lemma_pass_entry_end(m);
        lemma_pass_concat(l, open + reference, m, end, quoted(l.depth));
    } else {
        let m = quoted(l.depth + 1);
        lemma_pass_plain(m, reference);
        lemma_pass_concat(l, open, m, reference, m);
        lemma_pass_entry_end(m);
        lemma_pass_concat(l, open + reference, m, end, out(l.depth));
    }
}

/// Rewriting entries leaves a list closing where it closed.
proof fn lemma_rewritten_close(
    b: Seq<char>,
    i: int,
    l: Lex,
    old_ref: Seq<char>,
    new_ref: Seq<char>,
)
    requires
        0 <= i < b.len(),
        l.depth >= 1,
        l.escaped ==> l.quoted,
        close_from(b, i, l) == Some(b.len() - 1),
        is_flat(old_ref),
        is_plain_text(old_ref),
        is_flat(new_ref),
        is_plain_text(new_ref),
    ensures
        ({
            let r = replaced_from(
                b,
                i,
                b.len() as int,
                instance_entry(old_ref),
                instance_entry(new_ref),
            );
            r.len() > 0 && close_from(r, 0, l) == Some(r.len() - 1)
        }),
    decreases b.len() - i,
{
    let pat = instance_entry(old_ref);
    let rep = instance_entry(new_ref);
    let len = b.len() as int;
    let r = replaced_from(b, i, len, pat, rep);
    lemma_entry(old_ref);
    lemma_entry(new_ref);
    lemma_first_match(b, i, len, pat);
    match first_match(b, i, len, pat) {
        Some(at) => {
            let behind = at + pat.len() as int;
            let gap = b.subrange(i, at);
            let l1 = run(l, b, i, at);
            let m = Lex { escaped: false, ..l1 };
            lemma_pass_prefix(b, i, at, l);
            lemma_pass_entry(l1, old_ref);
            lemma_pass_entry(l1, new_ref);
            assert(b.subrange(at, behind) == pat);
            assert(run(l1, b, at, behind) == m && behind < len) by {
                reveal(passes);
                assert(pat.subrange(0, pat.len() as int) =~= b.subrange(at, behind));
                lemma_run_same(l1, pat, 0, pat.len() as int, b, at);
                if behind == len {
                    assert(b.skip(at) =~= pat);
                    assert(pat.skip(0) =~= b.skip(at));
                    lemma_close_none_same(pat, 0, l1, b, at);
                }
            }
            lemma_pass_prefix(b, at, behind, l1);
            lemma_rewritten_close(b, behind, m, old_ref, new_ref);
            let tail = replaced_from(b, behind, len, pat, rep);
            lemma_close_behind(l1, rep, m, tail);
            lemma_close_behind(l, gap, l1, rep + tail);
            assert(r =~= gap + (rep + tail));
        },
        None => {
            assert(b.subrange(i, len) =~= r.subrange(0, len - i));
            lemma_close_same(b, i, l, len - 1, r, 0);
        },
    }
}

/// Rewriting the entries of a symbol block gives a symbol block.
#[verifier::spinoff_prover]
#[verifier::rlimit(40)]
pub proof fn lemma_rewritten_block(b: Seq<char>, old_ref: Seq<char>, new_ref: Seq<char>)
    requires
        is_block(b),
        tag_at(b, 0) == "symbol"@,
        is_flat(old_ref),
        is_plain_text(old_ref),
        is_flat(new_ref),
        is_plain_text(new_ref),
    ensures
        ({
            let r = replaced_from(
                b,
                0,
                b.len() as int,
                instance_entry(old_ref),
                instance_entry(new_ref),
            );
            is_block(r) && tag_at(r, 0) == "symbol"@
        }),
{
    let pat = instance_entry(old_ref);
    let rep = instance_entry(new_ref);
    let len = b.len() as int;
    let o = outside();
    let l = step(o, b[0]);
    let r = replaced_from(b, 0, len, pat, rep);
    lemma_before_close(b);
    lemma_entry(old_ref);
    lemma_entry(new_ref);
    reveal_strlit("symbol");
    reveal_strlit("(reference \"");
    assert(b.subrange(0, len) =~= b);
    lemma_tag_of_block(b, 0, b);
    lemma_tag_end(b, 1);
    let j = tag_end(b, 1)->0;
    assert(b.subrange(1, j) == "symbol"@);
    assert(b[1] == b.subrange(1, j)[0]);
    if occurs_at(b, 0, pat) {
        assert(b.subrange(0, pat.len() as int)[1] == b[1]);
        assert(pat[1] == "(reference \""@[1]);
        assert(false);
    }
    let tail = replaced_from(b, 1, len, pat, rep);
    lemma_rewritten_close(b, 1, l, old_ref, new_ref);
    lemma_first_match(b, 1, len, pat);
    assert(first_match(b, 0, len, pat) == first_match(b, 1, len, pat));
    assert(r =~= seq!['('] + tail);
    assert(tail.subrange(0, tail.len() as int) =~= r.subrange(1, 1 + tail.len() as int));
    lemma_close_same(tail, 0, l, tail.len() - 1, r, 1);
    match first_match(b, 1, len, pat) {
        Some(at) => {
            assert(b.subrange(at, at + pat.len())[0] == b[at]);
            if at < j {
                assert(!ends_tag(b[at]));
            }
            let behind = replaced_from(b, at + pat.len(), len, pat, rep);
            assert(r == b.subrange(0, at) + rep + behind);
            assert forall|k: int| 0 < k < j implies !ends_tag(#[trigger] r[k]) by {
                assert(r[k] == b[k]);
            }
            assert(ends_tag(r[j])) by {
                if j < at {
                    assert(r[j] == b[j]);
                } else {
                    assert(r[j] == rep[0]);
                }
            }
            lemma_tag_is(r, 0, j);
            assert(r.subrange(1, j) =~= b.subrange(1, j));
        },
        None => {
            assert(r =~= b);
        },
    }
}

pub proof fn lemma_replaced_in_part(
    s: Seq<char>,
    a: int,
    b: int,
    i: int,
    pat: Seq<char>,
    rep: Seq<char>,
)
    requires
        0 <= a <= b <= s.len(),
        0 <= i <= b - a,
        pat.len() > 0,
    ensures
        replaced_from(s, a + i, b, pat, rep) == replaced_from(
            s.subrange(a, b),
            i,
            b - a,
            pat,
            rep,
        ),
    decreases b - a - i,
{
    let t = s.subrange(a, b);
    lemma_match_in_part(s, a, b, i, pat);
    lemma_first_match(t, i, b - a, pat);
    match first_match(t, i, b - a, pat) {
        Some(m) => {
            lemma_replaced_in_part(s, a, b, m + pat.len(), pat, rep);
            assert(s.subrange(a + i, a + m) =~= t.subrange(i, m));
        },
        None => {
            assert(s.subrange(a + i, b) =~= t.subrange(i, b - a));
        },
    }
}

/// Where an entry stood, the new one stands.
pub proof fn lemma_entry_written(b: Seq<char>, pat: Seq<char>, rep: Seq<char>)
    requires
        contains_text(b, pat),
        pat.len() > 0,
    ensures
        contains_text(replaced_from(b, 0, b.len() as int, pat, rep), rep),
{
    let len = b.len() as int;
    let r = replaced_from(b, 0, len, pat, rep);
    lemma_first_match(b, 0, len, pat);
    let k = choose|k: int| #[trigger] occurs_at(b, k, pat);
    assert(occurs_at(b, k, pat));
    let at = first_match(b, 0, len, pat)->0;
    assert(r.subrange(at, at + rep.len()) =~= rep);
    assert(occurs_at(r, at, rep));
}

/// The symbols of a schematic in which the instances paths were rewritten.
pub proof fn lemma_rewritten_texts(s: Seq<char>, old_ref: Seq<char>, new_ref: Seq<char>)
    requires
        is_flat(old_ref),
        is_plain_text(old_ref),
        is_flat(new_ref),
        is_plain_text(new_ref),
    ensures
        ({
            let pat = instance_entry(old_ref);
            let rep = instance_entry(new_ref);
            let t = patch(
                s,
                0,
                s.len() as int,
                instance_blocks(s, new_ref),
                entries_set(s, old_ref, new_ref),
            );
            &&& symbols(t).len() == symbols(s).len()
            &&& forall|k: int|
                0 <= k < symbols(s).len() ==> {
                    let before = node_text(s, symbols(s)[k]);
                    node_text(t, #[trigger] symbols(t)[k]) == if shows(before, new_ref) {
                        replaced_from(before, 0, before.len() as int, pat, rep)
                    } else {
                        before
                    }
                }
        }),
{
    let ns = symbols(s);
    let len = s.len() as int;
    let pat = instance_entry(old_ref);
    let rep = instance_entry(new_ref);
    let f = entries_set(s, old_ref, new_ref);
    let g = |n: Node|
        if shows(node_text(s, n), new_ref) {
            f(n)
        } else {
            node_text(s, n)
        };
    let t = patch(s, 0, len, instance_blocks(s, new_ref), f);
    lemma_symbols(s);
    lemma_entry(old_ref);
    lemma_tagged(s, nodes_in(s, 0, len, 1), "symbol"@);
    lemma_patch_showing(s, 0, len, ns, new_ref, f, g);
    assert forall|k: int| 0 <= k < ns.len() implies is_block(g(#[trigger] ns[k])) && tag_at(
        g(ns[k]),
        0,
    ) == "symbol"@ && (shows(node_text(s, ns[k]), new_ref) ==> g(ns[k]) == replaced_from(
        node_text(s, ns[k]),
        0,
        node_text(s, ns[k]).len() as int,
        pat,
        rep,
    )) by {
        let n = ns[k];
        lemma_tag_of_node(s, n);
        lemma_replaced_in_part(s, n.start, n.end + 1, 0, pat, rep);
        if shows(node_text(s, n), new_ref) {
            lemma_rewritten_block(node_text(s, n), old_ref, new_ref);
        }
    }
    lemma_patch_top(s, "symbol"@, g);
    let ts = symbols(t);
    assert(node_texts(t, ts) == ns.map_values(g));
    assert(ts.len() == ns.len());
    assert forall|k: int| 0 <= k < ns.len() implies node_text(t, #[trigger] ts[k]) == g(ns[k]) by {
        assert(node_texts(t, ts)[k] == node_text(t, ts[k]));
        assert(is_block(g(ns[k])));
    }
}

/// Rewriting the instances paths reaches every unit: afterwards no placement of
/// the new designator holds an entry for the old one, each that held one holds
/// the new one, and every other symbol stays as it is.
pub proof fn law_rewriting_reaches_every_unit(
    s: Seq<char>,
    old_ref: Seq<char>,
    new_ref: Seq<char>,
)
    requires
        rewritten(s, old_ref, new_ref) is Ok,
        is_flat(old_ref),
        is_plain_text(old_ref),
        is_flat(new_ref),
        is_plain_text(new_ref),
        old_ref != new_ref,
    ensures
        ({
            let t = (rewritten(s, old_ref, new_ref)->Ok_0).0;
            &&& symbols(t).len() == symbols(s).len()
            &&& forall|k: int|
                0 <= k < symbols(s).len() ==> {
                    let before = node_text(s, symbols(s)[k]);
                    let after = node_text(t, #[trigger] symbols(t)[k]);
                    if shows(before, new_ref) {
                        &&& !contains_text(after, instance_entry(old_ref))
                        &&& contains_text(before, instance_entry(old_ref)) ==> contains_text(
                            after,
                            instance_entry(new_ref),
                        )
                    } else {
                        after == before
                    }
                }
        }),
{
    let t = (rewritten(s, old_ref, new_ref)->Ok_0).0;
    let ns = symbols(s);
    let ts = symbols(t);
    let pat = instance_entry(old_ref);
    let rep = instance_entry(new_ref);
    lemma_entry(old_ref);
    lemma_rewritten_texts(s, old_ref, new_ref);
    assert forall|k: int| 0 <= k < ns.len() implies {
        let before = node_text(s, ns[k]);
        let after = node_text(t, #[trigger] ts[k]);
        if shows(before, new_ref) {
            &&& !contains_text(after, pat)
            &&& contains_text(before, pat) ==> contains_text(after, rep)
        } else {
            after == before
        }
    } by {
        let before = node_text(s, ns[k]);
        if shows(before, new_ref) {
            law_no_entry_keeps_the_old_designator(before, 0, before.len() as int, old_ref, new_ref);
            if contains_text(before, pat) {
                lemma_entry_written(before, pat, rep);
            }
        }
    }
}

// ─── An added property is there ──────────────────────────────────────────────

/// In a string the scanner passes over escaped text unmoved.
proof fn lemma_pass_escaped(l: Lex, value: Seq<char>)
    requires
        l.quoted,
        !l.escaped,
        l.depth >= 1,
    ensures
        passes(l, escaped(value), l),
    decreases value.len(),
{
    if value.len() > 0 {
        let front = escaped(value.drop_last());
        let c = value.last();
        lemma_pass_escaped(l, value.drop_last());
        let tail = if c == '\\' || c == '"' {
            seq!['\\', c]
        } else {
            seq![c]
        };
        assert(escaped(value) =~= front + tail);
        assert(passes(l, tail, l)) by {
            reveal(passes);
            reveal_with_fuel(run, 4);
            reveal_with_fuel(close_from, 4);
        }
        lemma_pass_concat(l, front, l, tail, l);
    } else {
        reveal(passes);
        assert(escaped(value) =~= Seq::<char>::empty());
    }
}

proof fn lemma_pass_at_open()
    ensures
        passes(out(2), "(at "@, out(3)),
{
    reveal(passes);
    reveal_strlit("(at ");
    reveal_with_fuel(run, 6);
    reveal_with_fuel(close_from, 6);
}

proof fn lemma_pass_at_end_text()
    ensures
        passes(out(3), " 0)"@, out(2)),
{
    reveal(passes);
    reveal_strlit(" 0)");
    reveal_with_fuel(run, 5);
    reveal_with_fuel(close_from, 5);
}

proof fn lemma_pass_effects_open()
    ensures
        passes(out(2), "(effects\n"@, out(3)),
{
    reveal(passes);
    reveal_strlit("(effects\n");
    reveal_with_fuel(run, 11);
    reveal_with_fuel(close_from, 11);
}

proof fn lemma_pass_font_text()
    ensures
        passes(out(3), "\t\t(font\n"@, out(4)),
{
    reveal(passes);
    reveal_strlit("\t\t(font\n");
    reveal_with_fuel(run, 10);
    reveal_with_fuel(close_from, 10);
}

proof fn lemma_pass_size_text()
    ensures
        passes(out(4), "\t\t\t(size 1.27 1.27)\n"@, out(4)),
{
    reveal(passes);
    reveal_strlit("\t\t\t(size 1.27 1.27)\n");
    reveal_with_fuel(run, 22);
    reveal_with_fuel(close_from, 22);
}

proof fn lemma_pass_font_end_text()
    ensures
        passes(out(4), "\t\t)\n"@, out(3)),
{
    reveal(passes);
    reveal_strlit("\t\t)\n");
    reveal_with_fuel(run, 6);
    reveal_with_fuel(close_from, 6);
}

proof fn lemma_pass_effects_end_text()
    ensures
        passes(out(3), "\t)"@, out(2)),
{
    reveal(passes);
    reveal_strlit("\t)");
    reveal_with_fuel(run, 4);
    reveal_with_fuel(close_from, 4);
}

proof fn lemma_pass_property_text()
    ensures
        passes(out(1), "(property \""@, quoted(2)),
{
    reveal(passes);
    reveal_strlit("(property \"");
    reveal_with_fuel(run, 13);
    reveal_with_fuel(close_from, 13);
}

proof fn lemma_pass_between_text()
    ensures
        passes(quoted(2), "\" \""@, quoted(2)),
{
    reveal(passes);
    reveal_strlit("\" \"");
    reveal_with_fuel(run, 5);
    reveal_with_fuel(close_from, 5);
}

proof fn lemma_pass_value_end_text()
    ensures
        passes(quoted(2), "\"\n"@, out(2)),
{
    reveal(passes);
    reveal_strlit("\"\n");
    reveal_with_fuel(run, 4);
    reveal_with_fuel(close_from, 4);
}

proof fn lemma_pass_hide_text()
    ensures
        passes(out(2), "\t(hide yes)\n"@, out(2)),
{
    reveal(passes);
    reveal_strlit("\t(hide yes)\n");
    reveal_with_fuel(run, 14);
    reveal_with_fuel(close_from, 14);
}

proof fn lemma_pass_property_end_text()
    ensures
        passes(out(2), ")"@, out(1)),
{
    reveal(passes);
    reveal_strlit(")");
    reveal_with_fuel(run, 3);
    reveal_with_fuel(close_from, 3);
}

proof fn lemma_pass_at(anchor: (Seq<char>, Seq<char>))
    requires
        is_flat(anchor.0),
        is_flat(anchor.1),
    ensures
        passes(out(2), at_clause(anchor), out(2)),
{
    let a = "(at "@;
    let b = a + anchor.0;
    let c = b + " "@;
    let d = c + anchor.1;
    lemma_pass_at_open();
    lemma_pass_flat(out(3), anchor.0);
    lemma_pass_concat(out(2), a, out(3), anchor.0, out(3));
    assert(is_flat(" "@)) by {
        reveal_strlit(" ");
    }
    lemma_pass_flat(out(3), " "@);
    lemma_pass_concat(out(2), b, out(3), " "@, out(3));
    lemma_pass_flat(out(3), anchor.1);
    lemma_pass_concat(out(2), c, out(3), anchor.1, out(3));
    lemma_pass_at_end_text();
    lemma_pass_concat(out(2), d, out(3), " 0)"@, out(2));
}

proof fn lemma_pass_effects(margin: Seq<char>)
    requires
        is_blank(margin),
    ensures
        passes(out(2), effects_clause(margin), out(2)),
{
    let a = "(effects\n"@;
    lemma_pass_effects_open();
    lemma_pass_blank(out(3), margin);
    lemma_pass_concat(out(2), a, out(3), margin, out(3));
    let b = a + margin;
    let font = "\t\t(font\n"@;
    lemma_pass_font_text();
    lemma_pass_concat(out(2), b, out(3), font, out(4));
    let c = b + font;
    lemma_pass_blank(out(4), margin);
    lemma_pass_concat(out(2), c, out(4), margin, out(4));
    let d = c + margin;
    let size = "\t\t\t(size 1.27 1.27)\n"@;
    lemma_pass_size_text();
    lemma_pass_concat(out(2), d, out(4), size, out(4));
    let e = d + size;
    lemma_pass_concat(out(2), e, out(4), margin, out(4));
    let f = e + margin;
    let end = "\t\t)\n"@;
    lemma_pass_font_end_text();
    lemma_pass_concat(out(2), f, out(4), end, out(3));
    let g = f + end;
    lemma_pass_concat(out(2), g, out(3), margin, out(3));
    let h = g + margin;
    let last = "\t)"@;
    lemma_pass_effects_end_text();
    lemma_pass_concat(out(2), h, out(3), last, out(2));
}

/// A hidden property can stand between the children of a symbol block.
proof fn lemma_pass_property(
    margin: Seq<char>,
    name: Seq<char>,
    value: Seq<char>,
    anchor: (Seq<char>, Seq<char>),
)
    requires
        is_blank(margin),
        is_plain_text(name),
        is_flat(anchor.0),
        is_flat(anchor.1),
    ensures
        passes(out(1), hidden_property(margin, name, value, anchor), out(1)),
{
    let l = out(1);
    let newline = "\n"@;
    let tab = "\t"@;
    assert(is_blank(newline)) by {
        reveal_strlit("\n");
    }
    assert(is_blank(tab)) by {
        reveal_strlit("\t");
    }
    lemma_pass_blank(l, newline);
    lemma_pass_blank(l, margin);
    lemma_pass_concat(l, newline, l, margin, l);
    lemma_pass_blank(out(2), newline);
    lemma_pass_blank(out(2), margin);
    lemma_pass_blank(out(2), tab);
    let a = "(property \""@;
    lemma_pass_property_text();
    lemma_pass_plain(quoted(2), name);
    lemma_pass_concat(l, a, quoted(2), name, quoted(2));
    let b = a + name;
    let between = "\" \""@;
    lemma_pass_between_text();
    lemma_pass_concat(l, b, quoted(2), between, quoted(2));
    let c = b + between;
    lemma_pass_escaped(quoted(2), value);
    lemma_pass_concat(l, c, quoted(2), escaped(value), quoted(2));
    let d = c + escaped(value);
    let close = "\"\n"@;
    lemma_pass_value_end_text();
    lemma_pass_concat(l, d, quoted(2), close, out(2));
    let e = d + close;
    lemma_pass_concat(l, e, out(2), margin, out(2));
    let f = e + margin;
    lemma_pass_concat(l, f, out(2), tab, out(2));
    let g = f + tab;
    lemma_pass_at(anchor);
    lemma_pass_concat(l, g, out(2), at_clause(anchor), out(2));
    let h = g + at_clause(anchor);
    lemma_pass_concat(l, h, out(2), newline, out(2));
    let i = h + newline;
    lemma_pass_concat(l, i, out(2), margin, out(2));
    let j = i + margin;
    let hide = "\t(hide yes)\n"@;
    lemma_pass_hide_text();
    lemma_pass_concat(l, j, out(2), hide, out(2));
    let k = j + hide;
    lemma_pass_concat(l, k, out(2), margin, out(2));
    let m = k + margin;
    lemma_pass_concat(l, m, out(2), tab, out(2));
    let n = m + tab;
    lemma_pass_effects(margin);
    lemma_pass_concat(l, n, out(2), effects_clause(margin), out(2));
    let o = n + effects_clause(margin);
    lemma_pass_concat(l, o, out(2), newline, out(2));
    let p = o + newline;
    lemma_pass_concat(l, p, out(2), margin, out(2));
    let q = p + margin;
    let end = ")"@;
    lemma_pass_property_end_text();
    lemma_pass_concat(l, q, out(2), end, l);
    lemma_pass_concat(l, newline + margin, l, q + end, l);
}

pub proof fn lemma_property_indent_blank(b: Seq<char>)
    ensures
        is_blank(property_indent(b)),
{
    reveal_strlit("(property ");
    reveal_strlit("\t\t");
    lemma_first_match(b, 0, b.len() as int, "(property "@);
    match first_match(b, 0, b.len() as int, "(property "@) {
        Some(p) => {
            lemma_indent_is_blank(b, p);
        },
        None => {},
    }
}

/// A block, with text put in at `p`.
pub open spec fn grown(b: Seq<char>, p: int, v: Seq<char>) -> Seq<char> {
    b.take(p) + v + b.skip(p)
}

proof fn lemma_grown_block(b: Seq<char>, p: int, v: Seq<char>)
    requires
        is_block(b),
        0 < p < b.len(),
        run(outside(), b, 0, p) == inside(),
        ends_tag(b[p]),
        is_level(v),
        v.len() > 0,
        ends_tag(v[0]),
    ensures
        is_block(grown(b, p, v)),
        tag_at(grown(b, p, v), 0) == tag_at(b, 0),
{
    let x = b.take(p);
    let y = b.skip(p);
    let none = Seq::<char>::empty();
    let c = grown(b, p, v);
    lemma_blank_is_level(none);
    assert(x + none + y =~= b);
    assert(b.subrange(0, p) =~= x.subrange(0, p));
    lemma_run_same(outside(), b, 0, p, x, 0);
    lemma_exchange(x, none, y, v);
    lemma_tag_end(b, 1);
    let e = tag_end(b, 1)->0;
    assert forall|k: int| 0 < k < e implies !ends_tag(#[trigger] c[k]) by {
        assert(c[k] == b[k]);
    }
    if e < p {
        assert(c[e] == b[e]);
    } else {
        assert(c[e] == v[0]);
    }
    lemma_tag_is(b, 0, e);
    lemma_tag_is(c, 0, e);
    assert(b.subrange(1, e) =~= c.subrange(1, e));
}

/// Text put in where no occurrence of `pat` stands around it leaves every one.
pub proof fn lemma_grown_keeps(b: Seq<char>, p: int, v: Seq<char>, pat: Seq<char>)
    requires
        0 <= p <= b.len(),
        contains_text(b, pat),
        forall|k: int| k < p < k + pat.len() ==> !#[trigger] occurs_at(b, k, pat),
    ensures
        contains_text(grown(b, p, v), pat),
{
    let c = grown(b, p, v);
    let k = choose|k: int| #[trigger] occurs_at(b, k, pat);
    if k + pat.len() <= p {
        assert(c.subrange(k, k + pat.len()) =~= b.subrange(k, k + pat.len()));
        assert(occurs_at(c, k, pat));
    } else {
        let at = k + v.len();
        assert(c.subrange(at, at + pat.len()) =~= b.subrange(k, k + pat.len()));
        assert(occurs_at(c, at, pat));
    }
}

proof fn lemma_grown_holds(b: Seq<char>, p: int, v: Seq<char>, pat: Seq<char>)
    requires
        0 <= p <= b.len(),
        contains_text(v, pat),
    ensures
        contains_text(grown(b, p, v), pat),
{
    let k = choose|k: int| #[trigger] occurs_at(v, k, pat);
    let at = p + k;
    let c = grown(b, p, v);
    assert(c.subrange(at, at + pat.len()) =~= v.subrange(k, k + pat.len()));
    assert(occurs_at(c, at, pat));
}

/// No `Reference` property stands around a closing parenthesis that ends a block.
pub proof fn lemma_reference_before_close(b: Seq<char>, reference: Seq<char>)
    requires
        is_block(b),
    ensures
        forall|k: int|
            k < b.len() - 1 < k + reference_property(reference).len() ==> !#[trigger] occurs_at(
                b,
                k,
                reference_property(reference),
            ),
{
    let q = reference_property(reference);
    let p = b.len() - 1;
    reveal_strlit("\"");
    lemma_before_close(b);
    assert forall|k: int| k < p < k + q.len() implies !#[trigger] occurs_at(b, k, q) by {
        if occurs_at(b, k, q) {
            assert(k + q.len() == b.len());
            assert(b.subrange(k, k + q.len())[q.len() - 1] == b[p]);
            assert(q[q.len() - 1] == '"');
        }
    }
}

/// No `Reference` property stands around an opening parenthesis that is not its
/// own.
pub proof fn lemma_reference_before_open(b: Seq<char>, reference: Seq<char>, p: int)
    requires
        0 <= p < b.len(),
        b[p] == '(',
        is_flat(reference),
    ensures
        forall|k: int|
            k < p < k + reference_property(reference).len() ==> !#[trigger] occurs_at(
                b,
                k,
                reference_property(reference),
            ),
{
    let q = reference_property(reference);
    let head = property_marker("Reference"@);
    lemma_marker("Reference"@);
    reveal_strlit("(property \"");
    reveal_strlit("Reference");
    reveal_strlit("\"");
    assert forall|k: int| k < p < k + q.len() implies !#[trigger] occurs_at(b, k, q) by {
        if occurs_at(b, k, q) {
            let o = p - k;
            assert(b.subrange(k, k + q.len())[o] == b[p]);
            assert(q[o] == '(');
            let front = head.subrange(0, 11);
            let name = head.subrange(11, 20);
            if o < 11 {
                assert(q[o] == front[o]);
            } else if o < 20 {
                assert(q[o] == name[o - 11]);
            } else if o < 23 {
                assert(q[o] == head[o]);
            } else if o < 23 + reference.len() {
                assert(q[o] == reference[o - 23]);
            }
        }
    }
}

proof fn lemma_property_text(
    margin: Seq<char>,
    name: Seq<char>,
    value: Seq<char>,
    anchor: (Seq<char>, Seq<char>),
)
    requires
        is_blank(margin),
        is_plain_text(name),
        is_flat(anchor.0),
        is_flat(anchor.1),
    ensures
        is_level(hidden_property(margin, name, value, anchor)),
        hidden_property(margin, name, value, anchor).len() > 0,
        hidden_property(margin, name, value, anchor)[0] == '\n',
        contains_text(hidden_property(margin, name, value, anchor), property_marker(name)),
{
    let v = hidden_property(margin, name, value, anchor);
    let m = property_marker(name);
    lemma_pass_property(margin, name, value, anchor);
    assert(is_level(v)) by {
        reveal(passes);
        assert(out(1) == inside());
    }
    reveal_strlit("\n");
    let head = "\n"@ + margin;
    let rest = escaped(value) + "\"\n"@ + margin + "\t"@ + at_clause(anchor) + "\n"@ + margin
        + "\t(hide yes)\n"@ + margin + "\t"@ + effects_clause(margin) + "\n"@ + margin + ")"@;
    assert(v =~= head + m + rest) by {
        lemma_regroup(
            m,
            escaped(value),
            "\"\n"@,
            margin,
            "\t"@,
            at_clause(anchor),
            "\n"@,
            "\t(hide yes)\n"@,
            effects_clause(margin),
            ")"@,
        );
    }
    let at = head.len() as int;
    assert(v.subrange(at, at + m.len()) =~= m);
    assert(occurs_at(v, at, m));
}

pub proof fn lemma_regroup(
    m: Seq<char>,
    a: Seq<char>,
    b: Seq<char>,
    c: Seq<char>,
    d: Seq<char>,
    e: Seq<char>,
    f: Seq<char>,
    g: Seq<char>,
    h: Seq<char>,
    i: Seq<char>,
)
    ensures
        m + a + b + c + d + e + f + c + g + c + d + h + f + c + i == m + (a + b + c + d + e + f + c
            + g + c + d + h + f + c + i),
{
    let r1 = a + b;
    let r2 = r1 + c;
    let r3 = r2 + d;
    let r4 = r3 + e;
    let r5 = r4 + f;
    let r6 = r5 + c;
    let r7 = r6 + g;
    let r8 = r7 + c;
    let r9 = r8 + d;
    let r10 = r9 + h;
    let r11 = r10 + f;
    let r12 = r11 + c;
    lemma_assoc(m, a, b);
    lemma_assoc(m, r1, c);
    lemma_assoc(m, r2, d);
    lemma_assoc(m, r3, e);
    lemma_assoc(m, r4, f);
    lemma_assoc(m, r5, c);
    lemma_assoc(m, r6, g);
    lemma_assoc(m, r7, c);
    lemma_assoc(m, r8, d);
    lemma_assoc(m, r9, h);
    lemma_assoc(m, r10, f);
    lemma_assoc(m, r11, c);
    lemma_assoc(m, r12, i);
}

pub proof fn lemma_assoc(a: Seq<char>, b: Seq<char>, c: Seq<char>)
    ensures
        a + b + c == a + (b + c),
{
    assert(a + b + c =~= a + (b + c));
}

/// The block that a property was added to: it is the first placement's, grown by
/// the property.
pub proof fn lemma_appended(
    s: Seq<char>,
    reference: Seq<char>,
    name: Seq<char>,
    value: Seq<char>,
    anchor: (Seq<char>, Seq<char>),
)
    requires
        instance_block(s, reference) is Some,
        is_plain_text(name),
        is_flat(anchor.0),
        is_flat(anchor.1),
    ensures
        ({
            let b = node_text(s, instance_block(s, reference)->0);
            let v = hidden_property(property_indent(b), name, value, anchor);
            let c = grown(b, b.len() - 1, v);
            &&& is_block(b)
            &&& is_block(c)
            &&& tag_at(c, 0) == "symbol"@
            &&& shows(c, reference)
            &&& contains_text(c, property_marker(name))
            &&& appended(s, reference, name, value, Some(anchor)) matches Ok(t) && {
                &&& instance_block(t, reference) is Some
                &&& node_text(t, instance_block(t, reference)->0) == c
                &&& symbols(t).len() == symbols(s).len()
                &&& forall|k: int|
                    0 <= k < symbols(s).len() ==> node_text(t, #[trigger] symbols(t)[k])
                        == if Some(symbols(s)[k]) == instance_block(s, reference) {
                        c
                    } else {
                        node_text(s, symbols(s)[k])
                    }
                &&& forall|k: int|
                    0 <= k < symbols(s).len() && Some(#[trigger] symbols(s)[k]) == instance_block(
                        s,
                        reference,
                    ) ==> instance_block(t, reference) == Some(symbols(t)[k])
            }
        }),
{
    let j = lemma_instance_index(s, reference);
    let n = instance_block(s, reference)->0;
    let b = node_text(s, n);
    let margin = property_indent(b);
    let v = hidden_property(margin, name, value, anchor);
    let p = b.len() - 1;
    let c = grown(b, p, v);
    lemma_tag_of_node(s, n);
    lemma_tagged(s, nodes_in(s, 0, s.len() as int, 1), "symbol"@);
    lemma_property_indent_blank(b);
    lemma_property_text(margin, name, value, anchor);
    lemma_before_close(b);
    lemma_grown_block(b, p, v);
    lemma_reference_before_close(b, reference);
    lemma_grown_keeps(b, p, v, reference_property(reference));
    lemma_grown_holds(b, p, v, property_marker(name));
    lemma_placement_replaced(s, reference, c);
    assert(s.take(n.end) + v + s.skip(n.end) =~= s.take(n.start) + c + s.skip(n.end + 1));
}

proof fn lemma_pass_note_open()
    ensures
        passes(out(1), "    (property \""@, quoted(2)),
{
    reveal(passes);
    reveal_strlit("    (property \"");
    reveal_with_fuel(run, 17);
    reveal_with_fuel(close_from, 17);
}

proof fn lemma_pass_note_end()
    ensures
        passes(
            quoted(2),
            "\"\n      (at 0 0 0)\n      (effects (font (size 1.27 1.27)) (hide yes))\n    )\n    "@,
            out(1),
        ),
{
    let text = "\"\n      (at 0 0 0)\n      (effects (font (size 1.27 1.27)) (hide yes))\n    )\n    "@;
    reveal_strlit(
        "\"\n      (at 0 0 0)\n      (effects (font (size 1.27 1.27)) (hide yes))\n    )\n    ",
    );
    let a = text.subrange(0, 20);
    let b = text.subrange(20, 40);
    let c = text.subrange(40, 60);
    let d = text.subrange(60, text.len() as int);
    assert(passes(quoted(2), a, out(2))) by {
        reveal(passes);
        reveal_with_fuel(run, 22);
        reveal_with_fuel(close_from, 22);
    }
    assert(passes(out(2), b, out(4))) by {
        reveal(passes);
        reveal_with_fuel(run, 22);
        reveal_with_fuel(close_from, 22);
    }
    assert(passes(out(4), c, out(4))) by {
        reveal(passes);
        reveal_with_fuel(run, 22);
        reveal_with_fuel(close_from, 22);
    }
    assert(passes(out(4), d, out(1))) by {
        reveal(passes);
        reveal_with_fuel(run, 22);
        reveal_with_fuel(close_from, 22);
    }
    lemma_pass_concat(quoted(2), a, out(2), b, out(4));
    lemma_pass_concat(quoted(2), a + b, out(4), c, out(4));
    lemma_pass_concat(quoted(2), a + b + c, out(4), d, out(1));
    assert(text =~= a + b + c + d);
}

/// A property as it stands in a block: its name and its value.
pub open spec fn property_text(key: Seq<char>, value: Seq<char>) -> Seq<char> {
    property_marker(key) + value + "\""@
}

/// Whether a block has the property `key` with the value `value`, outside strings.
pub open spec fn carries(b: Seq<char>, key: Seq<char>, value: Seq<char>) -> bool {
    exists|k: int| #[trigger] occurs_at(b, k, property_text(key, value)) && !run(
        outside(),
        b,
        0,
        k,
    ).quoted
}

/// The block that an annotation was added to: it is the first placement's, grown by
/// the annotation between two of its children, and every other symbol is as it was.
pub proof fn lemma_annotated(
    s: Seq<char>,
    reference: Seq<char>,
    key: Seq<char>,
    value: Seq<char>,
)
    requires
        instance_block(s, reference) is Some,
        is_flat(reference),
        is_plain_text(key),
        is_plain_text(value),
    ensures
        ({
            let n = instance_block(s, reference)->0;
            let b = node_text(s, n);
            let p = property_place(b);
            let v = note_property(key, value);
            let c = grown(b, p, v);
            &&& is_block(b)
            &&& 0 < p < b.len()
            &&& b[p] == '(' || p == b.len() - 1 && b[p] == ')'
            &&& run(outside(), b, 0, p) == inside()
            &&& is_level(v)
            &&& carries(c, key, value)
            &&& is_block(c)
            &&& annotated(s, reference, key, value) matches Some(t) && {
                &&& t == s.take(n.start + p) + v + s.skip(n.start + p)
                &&& has_property(t, reference, key)
                &&& instance_block(t, reference) is Some
                &&& node_text(t, instance_block(t, reference)->0) == c
                &&& symbols(t).len() == symbols(s).len()
                &&& forall|k: int|
                    0 <= k < symbols(s).len() ==> node_text(t, #[trigger] symbols(t)[k])
                        == if symbols(s)[k] == n {
                        c
                    } else {
                        node_text(s, symbols(s)[k])
                    }
            }
        }),
{
    let j = lemma_instance_index(s, reference);
    let n = instance_block(s, reference)->0;
    let b = node_text(s, n);
    let p = property_place(b);
    let v = note_property(key, value);
    let c = grown(b, p, v);
    lemma_tag_of_node(s, n);
    lemma_tagged(s, nodes_in(s, 0, s.len() as int, 1), "symbol"@);
    lemma_before_close(b);
    // The note is level.
    lemma_pass_note_open();
    lemma_pass_plain(quoted(2), key);
    lemma_pass_between_text();
    lemma_pass_plain(quoted(2), value);
    lemma_pass_note_end();
    let a = "    (property \""@;
    lemma_pass_concat(out(1), a, quoted(2), key, quoted(2));
    lemma_pass_concat(out(1), a + key, quoted(2), "\" \""@, quoted(2));
    lemma_pass_concat(out(1), a + key + "\" \""@, quoted(2), value, quoted(2));
    lemma_pass_concat(
        out(1),
        a + key + "\" \""@ + value,
        quoted(2),
        "\"\n      (at 0 0 0)\n      (effects (font (size 1.27 1.27)) (hide yes))\n    )\n    "@,
        out(1),
    );
    assert(is_level(v)) by {
        reveal(passes);
        assert(out(1) == inside());
    }
    // It holds the property.
    let m = property_marker(key);
    assert(v[0] == ' ' && occurs_at(v, 4, m)) by {
        reveal_strlit("    (property \"");
        reveal_strlit("(property \"");
        assert(v.subrange(4, (4 + m.len()) as int) =~= m);
    }
    // It stands between the symbol's children.
    match child_tagged(b, "instances"@) {
        Some(child) => {
            let ns = nodes_in(b, 0, b.len() as int, 1);
            lemma_tagged(b, ns, "instances"@);
            let k = choose|k: int| 0 <= k < ns.len() && ns[k] == child;
            assert(ns[k] == child);
            lemma_nodes_bounds(b, 0, b.len() as int, outside(), 1);
            lemma_node_state(b, 0, b.len() as int, outside(), 1, k);
            assert(b[p] == '(');
            if p == 0 {
                assert(run(outside(), b, 0, 0) == outside());
            }
            lemma_reference_before_open(b, reference, p);
        },
        None => {
            lemma_reference_before_close(b, reference);
        },
    }
    lemma_grown_block(b, p, v);
    lemma_grown_keeps(b, p, v, reference_property(reference));
    lemma_grown_holds(b, p, v, m);
    lemma_placement_replaced(s, reference, c);
    let at = n.start + p;
    assert(s.take(at) + v + s.skip(at) =~= s.take(n.start) + c + s.skip(n.end + 1));
    lemma_note_carried(b, p, key, value);
}

proof fn lemma_note_carried(b: Seq<char>, p: int, key: Seq<char>, value: Seq<char>)
    requires
        0 <= p <= b.len(),
        run(outside(), b, 0, p) == inside(),
    ensures
        carries(grown(b, p, note_property(key, value)), key, value),
{
    let v = note_property(key, value);
    let c = grown(b, p, v);
    let q = property_text(key, value);
    reveal_strlit("    (property \"");
    reveal_strlit("(property \"");
    reveal_strlit("\" \"");
    reveal_strlit("\"");
    reveal_strlit(
        "\"\n      (at 0 0 0)\n      (effects (font (size 1.27 1.27)) (hide yes))\n    )\n    ",
    );
    assert(c.subrange(p + 4, p + 4 + q.len()) =~= q);
    assert(occurs_at(c, p + 4, q));
    assert(b.subrange(0, p) =~= c.subrange(0, p));
    lemma_run_same(outside(), b, 0, p, c, 0);
    assert forall|k: int| p <= k < p + 4 implies #[trigger] c[k] == ' ' by {
        assert(c[k] == v[k - p]);
    }
    lemma_run_letters_out(inside(), c, p, p + 4);
    lemma_run_split(outside(), c, 0, p, p + 4);
}

/// An annotation that was added is found in the symbol afterwards, with its value;
/// nothing else of the schematic changes: the text before and after it is as it
/// was, and so is every other symbol.
pub proof fn law_annotation_is_there(
    s: Seq<char>,
    reference: Seq<char>,
    key: Seq<char>,
    value: Seq<char>,
)
    requires
        instance_block(s, reference) is Some,
        is_flat(reference),
        is_plain_text(key),
        is_plain_text(value),
    ensures
        annotated(s, reference, key, value) matches Some(t) && {
            let n = instance_block(s, reference)->0;
            &&& has_property(t, reference, key)
            &&& instance_block(t, reference) matches Some(m) && carries(
                node_text(t, m),
                key,
                value,
            )
            &&& symbols(t).len() == symbols(s).len()
            &&& forall|k: int|
                0 <= k < symbols(s).len() && #[trigger] symbols(s)[k] != n ==> node_text(
                    t,
                    symbols(t)[k],
                ) == node_text(s, symbols(s)[k])
            &&& exists|at: int, v: Seq<char>|
                n.start < at <= n.end && t == #[trigger] (s.take(at) + v) + s.skip(at)
        },
{
    lemma_annotated(s, reference, key, value);
    let n = instance_block(s, reference)->0;
    let t = annotated(s, reference, key, value)->0;
    let at = n.start + property_place(node_text(s, n));
    let v = note_property(key, value);
    let j = lemma_instance_index(s, reference);
    assert(n.start < at <= n.end);
    assert(t == (s.take(at) + v) + s.skip(at));
    assert forall|k: int| 0 <= k < symbols(s).len() && #[trigger] symbols(s)[k] != n implies
        node_text(t, symbols(t)[k]) == node_text(s, symbols(s)[k]) by {
        assert(node_text(t, symbols(t)[k]) == node_text(s, symbols(s)[k]));
    }
}

/// An annotation is refused exactly where no symbol shows the reference.
pub proof fn law_annotation_needs_a_symbol(
    s: Seq<char>,
    reference: Seq<char>,
    key: Seq<char>,
    value: Seq<char>,
)
    ensures
        annotated(s, reference, key, value) is None <==> forall|k: int|
            0 <= k < symbols(s).len() ==> !shows(node_text(s, #[trigger] symbols(s)[k]), reference),
{
    lemma_none_showing(s, symbols(s), reference);
}

} // verus!
