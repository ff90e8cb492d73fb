//! What a request that renames a symbol promises of its other changes.

use crate::anchor_laws::{
    is_placed_first, lemma_added_keeps_front, lemma_front_holds_placement, lemma_set_keeps_front,
    same_front,
};
use crate::component_edit::{
    entry_count, fields_set, has_property, hidden_property, placement_of, property_indent, renamed,
    reserved, rewritten, with_value, EditRequest, EditState, FieldRequest,
};
use crate::edit_laws::{
    grown, has_one_reference, holds_plainly, law_no_entry_keeps_the_old_designator, lemma_appended,
    lemma_behind_marker, lemma_entry, lemma_entry_written, lemma_instance_index, lemma_marker,
    lemma_match_in_part, lemma_none_showing, lemma_pass_entry, lemma_placement_has_one_reference,
    lemma_placement_replaced, lemma_property_indent_blank, lemma_renamed_block, lemma_renamed_texts,
    lemma_rewritten_texts, lemma_run_letters_in, lemma_showing_contains, lemma_update_is_local,
    lemma_with_value, value_of,
};
use crate::field_laws::{
    closing, ends_with, holds_once, lemma_added_field, lemma_added_field_set, lemma_closing,
    lemma_escaped_plain, lemma_marker_quotes, opens_quoted, quote_free,
};
use crate::scan::{node_text, nodes_in, outside, run, step, tag_at, tag_end, Node};
use crate::structure::{
    is_blank, is_block, is_flat, is_node, is_plain_text, lemma_before_close, lemma_close_none_same,
    lemma_pass_blank, lemma_pass_prefix, lemma_run_same, lemma_run_split, lemma_tag_end,
    lemma_tag_of_block, lemma_tag_of_node, lemma_tagged, passes,
};
use crate::symbols::{
    instance_block, instance_blocks, instance_entry, lemma_showing, lemma_symbols, property_marker,
    reference_property, shows, symbols,
};
use crate::text::{
    contains_text, count_from, first_char, first_match, is_white_space, lemma_first_char,
    lemma_first_match, occurs_at, replaced_from,
};
use vstd::prelude::*;

verus! {

// ─── Values that stay closed ─────────────────────────────────────────────────

/// Whether a value, with the quote behind it, is no start of a property or of an
/// instance entry.
pub open spec fn opens_nothing(value: Seq<char>) -> bool {
    !ends_with(value, "(property "@) && !ends_with(value, "(reference "@)
}

proof fn lemma_flat_opens_nothing(value: Seq<char>)
    requires
        is_flat(value),
    ensures
        opens_nothing(value),
{
    reveal_strlit("(property ");
    reveal_strlit("(reference ");
    if ends_with(value, "(property "@) {
        assert(value.skip(value.len() - 10)[0] == value[value.len() - 10]);
    }
    if ends_with(value, "(reference "@) {
        assert(value.skip(value.len() - 11)[0] == value[value.len() - 11]);
    }
}

// ─── Other text stays where a value is exchanged ─────────────────────────────

/// Whether `pat` opens a list, and no other, and has its first quote at `quote`.
pub open spec fn opens_list(pat: Seq<char>, quote: int) -> bool {
    &&& 0 < quote < pat.len()
    &&& pat[0] == '('
    &&& pat[quote] == '"'
    &&& forall|j: int| 0 < j < pat.len() ==> #[trigger] pat[j] != '('
    &&& forall|j: int| 0 <= j < quote ==> #[trigger] pat[j] != '"'
}

/// Where `u` is exchanged for `v` between `z + mark` and `y`, an occurrence of
/// `pat` stays, before the mark or behind `u`.
pub proof fn lemma_occurrence_kept(
    z: Seq<char>,
    mark: Seq<char>,
    u: Seq<char>,
    v: Seq<char>,
    y: Seq<char>,
    pat: Seq<char>,
    quote: int,
    differ: int,
    k: int,
)
    requires
        mark.len() > 0,
        mark[0] == '(',
        forall|j: int| 0 < j < mark.len() ==> #[trigger] mark[j] != '(',
        opens_list(pat, quote),
        0 <= differ < mark.len(),
        differ < pat.len(),
        mark[differ] != pat[differ],
        quote_free(u),
        !ends_with(u, pat.take(quote)),
        y.len() > 0,
        y[0] == '"',
        occurs_at(z + mark + u + y, k, pat),
    ensures
        ({
            let end = z.len() + mark.len() + u.len();
            ||| k + pat.len() <= z.len() && occurs_at(z + mark + v + y, k, pat)
            ||| k >= end && occurs_at(z + mark + v + y, k + v.len() - u.len(), pat)
        }),
{
    let b = z + mark + u + y;
    let c = z + mark + v + y;
    let len = pat.len() as int;
    let a = z.len() as int;
    let at = a + mark.len() as int;
    let end = at + u.len() as int;
    let here = b.subrange(k, k + len);
    assert(here == pat);
    if k + len <= a {
        assert(c.subrange(k, k + len) =~= here);
    } else if k < a {
        assert(here[a - k] == b[a]);
        assert(b[a] == mark[0]);
        assert(false);
    } else if k == a {
        assert(here[differ] == b[a + differ]);
        assert(b[a + differ] == mark[differ]);
        assert(false);
    } else if k < at {
        assert(here[0] == b[k]);
        assert(b[k] == mark[k - a]);
        assert(false);
    } else if k < end {
        assert(here[quote] == b[k + quote]);
        if k + quote < end {
            assert(b[k + quote] == u[k + quote - at]);
            assert(false);
        } else if k + quote > end {
            assert(here[end - k] == b[end]);
            assert(b[end] == y[0]);
            assert(false);
        } else {
            assert(u.skip(u.len() - quote) =~= pat.take(quote)) by {
                assert forall|j: int| 0 <= j < quote implies u[u.len() - quote + j] == pat[j] by {
                    assert(here[j] == b[k + j]);
                }
            }
            assert(false);
        }
    } else {
        let d = v.len() - u.len();
        assert(c.subrange(k + d, k + d + len) =~= here);
    }
}

/// A flat property's marker opens one list.
proof fn lemma_marker_opens(field: Seq<char>)
    requires
        is_flat(field),
        is_plain_text(field),
    ensures
        opens_list(property_marker(field), 10),
        property_marker(field).take(10) == "(property "@,
{
    let m = property_marker(field);
    lemma_marker(field);
    lemma_marker_quotes(field);
    reveal_strlit("(property \"");
    reveal_strlit("(property ");
    let head = m.subrange(0, 11);
    let name = m.subrange(11, 11 + field.len() as int);
    assert forall|j: int| 0 <= j < 11 implies #[trigger] m[j] == "(property \""@[j] by {
        assert(head[j] == m[j]);
    }
    assert forall|j: int| 0 < j < m.len() implies #[trigger] m[j] != '(' by {
        if 11 <= j < 11 + field.len() {
            assert(name[j - 11] == m[j]);
        }
    }
    assert(m.take(10) =~= "(property "@);
}

/// An instance entry opens one list.
pub proof fn lemma_entry_opens(reference: Seq<char>)
    requires
        is_flat(reference),
    ensures
        opens_list(instance_entry(reference), 11),
        instance_entry(reference).take(11) == "(reference "@,
        instance_entry(reference)[1] == 'r',
{
    let e = instance_entry(reference);
    lemma_entry(reference);
    reveal_strlit("(reference \"");
    reveal_strlit("(reference ");
    assert forall|j: int| 0 <= j < 12 implies #[trigger] e[j] == "(reference \""@[j] by {}
    assert(e.take(11) =~= "(reference "@);
}

/// Where the markers of two properties differ.
pub proof fn lemma_markers_differ(f: Seq<char>, g: Seq<char>) -> (differ: int)
    requires
        is_plain_text(f),
        is_plain_text(g),
        f != g,
    ensures
        0 <= differ < property_marker(f).len(),
        differ < property_marker(g).len(),
        property_marker(f)[differ] != property_marker(g)[differ],
{
    let p = property_marker(f);
    let q = property_marker(g);
    lemma_marker(f);
    lemma_marker(g);
    let m = f.len() as int;
    let n = g.len() as int;
    let fs = p.subrange(11, 11 + m);
    let gs = q.subrange(11, 11 + n);
    if m < n {
        assert(gs[m] == q[11 + m]);
        11 + m
    } else if n < m {
        assert(fs[n] == p[11 + n]);
        11 + n
    } else {
        if forall|i: int| 0 <= i < m ==> f[i] == g[i] {
            assert(f =~= g);
        }
        let i = choose|i: int| 0 <= i < m && f[i] != g[i];
        assert(fs[i] == p[11 + i]);
        assert(gs[i] == q[11 + i]);
        11 + i
    }
}

/// The parts of a block around a property's value.
spec fn before_mark(b: Seq<char>, field: Seq<char>) -> Seq<char> {
    b.take(first_match(b, 0, b.len() as int, property_marker(field))->0)
}

spec fn behind_value(b: Seq<char>, field: Seq<char>) -> Seq<char> {
    let at = first_match(b, 0, b.len() as int, property_marker(field))->0 + property_marker(
        field,
    ).len();
    b.skip(first_char(b, at, b.len() as int, '"')->0)
}

proof fn lemma_parts(b: Seq<char>, field: Seq<char>, new_val: Seq<char>)
    requires
        value_of(b, field) is Some,
    ensures
        ({
            let z = before_mark(b, field);
            let mark = property_marker(field);
            let y = behind_value(b, field);
            let u = value_of(b, field)->0;
            &&& b == z + mark + u + y
            &&& with_value(b, field, new_val) == z + mark + new_val + y
            &&& y.len() > 0
            &&& y[0] == '"'
            &&& quote_free(u)
            &&& first_match(b, 0, b.len() as int, mark) == Some(z.len() as int)
        }),
{
    let p = property_marker(field);
    let len = b.len() as int;
    lemma_marker(field);
    lemma_first_match(b, 0, len, p);
    let m = first_match(b, 0, len, p)->0;
    let at = m + p.len();
    lemma_first_char(b, at, len, '"');
    let end = first_char(b, at, len, '"')->0;
    assert(b.subrange(m, at) == p);
    assert(b =~= b.take(m) + p + b.subrange(at, end) + b.skip(end));
    assert(b.take(at) =~= b.take(m) + p);
}

/// The scanner's state behind an exchanged value is the state behind the value
/// that it was exchanged for.
proof fn lemma_state_behind(b: Seq<char>, field: Seq<char>, new_val: Seq<char>, k: int)
    requires
        holds_plainly(b, field),
        is_plain_text(new_val),
        ({
            let end = b.len() - behind_value(b, field).len();
            end <= k <= b.len()
        }),
    ensures
        run(
            outside(),
            with_value(b, field, new_val),
            0,
            k + new_val.len() - value_of(b, field)->0.len(),
        ) == run(outside(), b, 0, k),
{
    let z = before_mark(b, field);
    let mark = property_marker(field);
    let y = behind_value(b, field);
    let u = value_of(b, field)->0;
    let c = with_value(b, field, new_val);
    lemma_parts(b, field, new_val);
    let a = z.len() as int;
    let at = a + mark.len() as int;
    let end = at + u.len() as int;
    let close = at + new_val.len() as int;
    let d = close - end;
    let o = outside();
    lemma_marker(field);
    lemma_first_match(b, 0, b.len() as int, mark);
    lemma_behind_marker(b, a, field);
    let l = run(o, b, 0, at);
    assert(b.subrange(0, at) =~= c.subrange(0, at));
    lemma_run_same(o, b, 0, at, c, 0);
    assert forall|i: int| at <= i < end implies #[trigger] b[i] != '"' && b[i] != '\\' by {
        assert(b[i] == u[i - at]);
    }
    assert forall|i: int| at <= i < close implies #[trigger] c[i] != '"' && c[i] != '\\' by {
        assert(c[i] == new_val[i - at]);
    }
    lemma_run_letters_in(l, b, at, end);
    lemma_run_letters_in(l, c, at, close);
    lemma_run_split(o, b, 0, at, end);
    lemma_run_split(o, c, 0, at, close);
    lemma_run_split(o, b, 0, end, k);
    lemma_run_split(o, c, 0, close, k + d);
    assert(b.subrange(end, k) =~= c.subrange(close, close + (k - end)));
    lemma_run_same(l, b, end, k, c, close);
}

/// Where `u` is exchanged for `v`, the first occurrence of `pat` is the one that
/// was, and an only one stays the only one.
proof fn lemma_first_kept(
    z: Seq<char>,
    mark: Seq<char>,
    u: Seq<char>,
    v: Seq<char>,
    y: Seq<char>,
    pat: Seq<char>,
    quote: int,
    differ: int,
)
    requires
        mark.len() > 0,
        mark[0] == '(',
        forall|j: int| 0 < j < mark.len() ==> #[trigger] mark[j] != '(',
        opens_list(pat, quote),
        0 <= differ < mark.len(),
        differ < pat.len(),
        mark[differ] != pat[differ],
        quote_free(u),
        quote_free(v),
        !ends_with(u, pat.take(quote)),
        !ends_with(v, pat.take(quote)),
        y.len() > 0,
        y[0] == '"',
        first_match(z + mark + u + y, 0, (z + mark + u + y).len() as int, pat) is Some,
    ensures
        ({
            let b = z + mark + u + y;
            let c = z + mark + v + y;
            let m = first_match(b, 0, b.len() as int, pat)->0;
            let n = first_match(c, 0, c.len() as int, pat);
            &&& ({
                ||| m + pat.len() <= z.len() && n == Some(m)
                ||| m >= z.len() + mark.len() + u.len() && n == Some(m + v.len() - u.len())
            })
            &&& (forall|k: int| #[trigger] occurs_at(b, k, pat) ==> k == m) ==> (forall|k: int|
             #[trigger] occurs_at(c, k, pat) ==> Some(k) == n)
        }),
{
    let b = z + mark + u + y;
    let c = z + mark + v + y;
    let d = v.len() - u.len();
    let a = z.len() as int;
    let len = pat.len() as int;
    lemma_first_match(b, 0, b.len() as int, pat);
    lemma_first_match(c, 0, c.len() as int, pat);
    let m = first_match(b, 0, b.len() as int, pat)->0;
    lemma_occurrence_kept(z, mark, u, v, y, pat, quote, differ, m);
    let n = if m + len <= a {
        m
    } else {
        m + d
    };
    assert(occurs_at(c, n, pat));
    let found = first_match(c, 0, c.len() as int, pat)->0;
    lemma_occurrence_kept(z, mark, v, u, y, pat, quote, differ, found);
    if found < n {
        if found + len <= a {
            assert(occurs_at(b, found, pat));
        } else {
            assert(occurs_at(b, found - d, pat));
        }
        assert(false);
    }
    if forall|k: int| #[trigger] occurs_at(b, k, pat) ==> k == m {
        assert forall|k: int| #[trigger] occurs_at(c, k, pat) implies k == n by {
            lemma_occurrence_kept(z, mark, v, u, y, pat, quote, differ, k);
            if k + len <= a {
                assert(occurs_at(b, k, pat));
            } else {
                assert(occurs_at(b, k - d, pat));
            }
        }
    }
}

/// What is read up to the next quote stays where it lies before the exchange.
proof fn lemma_quoted_before(b: Seq<char>, c: Seq<char>, from: int, limit: int)
    requires
        0 <= from <= limit < b.len(),
        limit < c.len(),
        b[limit] == '"',
        forall|i: int| 0 <= i <= limit ==> b[i] == #[trigger] c[i],
    ensures
        ({
            let q = first_char(b, from, b.len() as int, '"');
            &&& q is Some
            &&& first_char(c, from, c.len() as int, '"') == q
            &&& c.subrange(from, q->0) == b.subrange(from, q->0)
        }),
{
    lemma_first_char(b, from, b.len() as int, '"');
    lemma_first_char(c, from, c.len() as int, '"');
    let q = first_char(b, from, b.len() as int, '"')->0;
    assert(q <= limit);
    assert(c[q] == '"');
    let o = first_char(c, from, c.len() as int, '"')->0;
    if o < q {
        assert(b[o] == c[o]);
    }
    assert(o == q);
    assert(c.subrange(from, q) =~= b.subrange(from, q));
}

/// What is read up to the next quote stays where it lies behind the exchange.
proof fn lemma_quoted_behind(b: Seq<char>, c: Seq<char>, from: int, d: int)
    requires
        0 <= from <= b.len(),
        0 <= from + d,
        c.len() == b.len() + d,
        forall|i: int| from <= i < b.len() ==> #[trigger] b[i] == c[i + d],
        first_char(b, from, b.len() as int, '"') is Some,
    ensures
        ({
            let q = first_char(b, from, b.len() as int, '"')->0;
            &&& first_char(c, from + d, c.len() as int, '"') == Some(q + d)
            &&& c.subrange(from + d, q + d) == b.subrange(from, q)
        }),
{
    lemma_first_char(b, from, b.len() as int, '"');
    lemma_first_char(c, from + d, c.len() as int, '"');
    let q = first_char(b, from, b.len() as int, '"')->0;
    assert(b[q] == c[q + d]);
    let o = first_char(c, from + d, c.len() as int, '"')->0;
    assert(b[o - d] == c[(o - d) + d]);
    assert(o == q + d);
    assert(c.subrange(from + d, q + d) =~= b.subrange(from, q));
}

/// Setting one property leaves the readings of the others.
proof fn lemma_other_property(b: Seq<char>, field: Seq<char>, new_val: Seq<char>, other: Seq<char>)
    requires
        is_flat(field),
        holds_plainly(b, field),
        is_plain_text(new_val),
        !ends_with(value_of(b, field)->0, "(property "@),
        !ends_with(new_val, "(property "@),
        is_flat(other),
        holds_plainly(b, other),
        field != other,
    ensures
        holds_plainly(with_value(b, field, new_val), other),
        value_of(with_value(b, field, new_val), other) == value_of(b, other),
        holds_once(b, other) ==> holds_once(with_value(b, field, new_val), other),
{
    let z = before_mark(b, field);
    let mark = property_marker(field);
    let y = behind_value(b, field);
    let u = value_of(b, field)->0;
    let c = with_value(b, field, new_val);
    let pat = property_marker(other);
    let len = pat.len() as int;
    lemma_parts(b, field, new_val);
    lemma_marker_opens(field);
    lemma_marker_opens(other);
    let differ = lemma_markers_differ(field, other);
    assert(quote_free(new_val));
    lemma_first_kept(z, mark, u, new_val, y, pat, 10, differ);
    lemma_first_match(b, 0, b.len() as int, pat);
    let m = first_match(b, 0, b.len() as int, pat)->0;
    let a = z.len() as int;
    let d = new_val.len() - u.len();
    if m + len <= a {
        assert(b.subrange(0, m) =~= c.subrange(0, m));
        lemma_run_same(outside(), b, 0, m, c, 0);
        assert(b[a + 10] == mark[10]);
        lemma_quoted_before(b, c, m + len, a + 10);
    } else {
        lemma_state_behind(b, field, new_val, m);
        lemma_quoted_behind(b, c, m + len, d);
    }
}

/// Setting a property leaves instance entries.
proof fn lemma_entry_kept(
    b: Seq<char>,
    field: Seq<char>,
    new_val: Seq<char>,
    reference: Seq<char>,
)
    requires
        is_flat(field),
        is_plain_text(field),
        value_of(b, field) is Some,
        !ends_with(value_of(b, field)->0, "(reference "@),
        is_flat(reference),
        contains_text(b, instance_entry(reference)),
    ensures
        contains_text(with_value(b, field, new_val), instance_entry(reference)),
{
    let e = instance_entry(reference);
    let mark = property_marker(field);
    lemma_parts(b, field, new_val);
    lemma_marker_opens(field);
    lemma_marker(field);
    lemma_entry_opens(reference);
    let k = choose|k: int| #[trigger] occurs_at(b, k, e);
    assert(occurs_at(b, k, e));
    lemma_occurrence_kept(
        before_mark(b, field),
        mark,
        value_of(b, field)->0,
        new_val,
        behind_value(b, field),
        e,
        11,
        1,
        k,
    );
}

// ─── Readings stay where entries are rewritten ───────────────────────────────

/// The value of the first property `field` from `from` on.
spec fn value_from(b: Seq<char>, from: int, field: Seq<char>) -> Option<Seq<char>> {
    match first_match(b, from, b.len() as int, property_marker(field)) {
        None => None,
        Some(m) => {
            let at = m + property_marker(field).len();
            match first_char(b, at, b.len() as int, '"') {
                None => None,
                Some(end) => Some(b.subrange(at, end)),
            }
        },
    }
}

/// Readings depend on what stands from there on alone.
proof fn lemma_value_behind(x: Seq<char>, r: Seq<char>, field: Seq<char>)
    requires
        forall|k: int| 0 <= k < x.len() ==> !#[trigger] occurs_at(x + r, k, property_marker(field)),
    ensures
        value_from(x + r, 0, field) == value_from(r, 0, field),
{
    let c = x + r;
    let p = property_marker(field);
    let a = x.len() as int;
    lemma_marker(field);
    lemma_first_match(c, 0, c.len() as int, p);
    lemma_first_match(r, 0, r.len() as int, p);
    assert forall|k: int| 0 <= k implies occurs_at(r, k, p) == #[trigger] occurs_at(c, a + k, p) by {
        if a + k + p.len() <= c.len() {
            assert(c.subrange(a + k, a + k + p.len()) =~= r.subrange(k, k + p.len()));
        }
    }
    match first_match(r, 0, r.len() as int, p) {
        Some(m) => {
            assert(occurs_at(c, a + m, p));
            let found = first_match(c, 0, c.len() as int, p)->0;
            assert(occurs_at(c, found, p));
            assert(occurs_at(r, found - a, p) == occurs_at(c, a + (found - a), p));
            if found < a + m {
                assert(occurs_at(r, found - a, p));
            }
            assert(found == a + m);
            let at = m + p.len();
            lemma_first_char(c, a + at, c.len() as int, '"');
            lemma_first_char(r, at, r.len() as int, '"');
            match first_char(r, at, r.len() as int, '"') {
                Some(q) => {
                    assert(c[a + q] == r[q]);
                    assert forall|i: int| a + at <= i < a + q implies c[i] != '"' by {
                        assert(c[i] == r[i - a]);
                    }
                    assert(first_char(c, a + at, c.len() as int, '"') == Some(a + q));
                    assert(c.subrange(a + at, a + q) =~= r.subrange(at, q));
                },
                None => {
                    match first_char(c, a + at, c.len() as int, '"') {
                        Some(q) => {
                            assert(c[q] == r[q - a]);
                        },
                        None => {},
                    }
                },
            }
        },
        None => {
            match first_match(c, 0, c.len() as int, p) {
                Some(found) => {
                    assert(occurs_at(r, found - a, p) == occurs_at(c, a + (found - a), p));
                },
                None => {},
            }
        },
    }
}

/// Rewriting entries leaves the readings of properties.
proof fn lemma_value_survives(
    b: Seq<char>,
    i: int,
    old_ref: Seq<char>,
    new_ref: Seq<char>,
    field: Seq<char>,
)
    requires
        0 <= i <= b.len(),
        is_flat(old_ref),
        is_flat(new_ref),
        is_flat(field),
        is_plain_text(field),
        value_from(b, i, field) matches Some(value) && !ends_with(value, "(reference "@),
    ensures
        value_from(
            replaced_from(
                b,
                i,
                b.len() as int,
                instance_entry(old_ref),
                instance_entry(new_ref),
            ),
            0,
            field,
        ) == value_from(b, i, field),
    decreases b.len() - i,
{
    let pat = instance_entry(old_ref);
    let rep = instance_entry(new_ref);
    let p = property_marker(field);
    let plen = p.len() as int;
    let len = b.len() as int;
    let r = replaced_from(b, i, len, pat, rep);
    lemma_entry_opens(old_ref);
    lemma_entry_opens(new_ref);
    lemma_marker_opens(field);
    lemma_marker(field);
    lemma_first_match(b, i, len, pat);
    lemma_first_match(b, i, len, p);
    let m = first_match(b, i, len, p)->0;
    let from = m + plen;
    lemma_first_char(b, from, len, '"');
    let q = first_char(b, from, len, '"')->0;
    match first_match(b, i, len, pat) {
        Some(at) => {
            let behind = at + pat.len() as int;
            let gap = b.subrange(i, at);
            let rest = replaced_from(b, behind, len, pat, rep);
            assert(r == gap + rep + rest);
            let there = b.subrange(at, behind);
            assert(there == pat);
            let here = b.subrange(m, from);
            assert(here == p);
            if m < at {
                lemma_marker_before_entry(b, m, at, old_ref, field);
                lemma_value_in_gap(b, i, at, gap, rep + rest, field);
                assert(r =~= gap + (rep + rest));
            } else {
                assert(there[0] == b[at]);
                if m == at {
                    assert(there[1] == b[at + 1]);
                    assert(here[1] == b[m + 1]);
                    assert(false);
                }
                if m < behind {
                    assert(there[m - at] == b[m]);
                    assert(here[0] == b[m]);
                    assert(false);
                }
                assert(first_match(b, behind, len, p) == Some(m)) by {
                    lemma_first_match(b, behind, len, p);
                    assert(occurs_at(b, m, p));
                    if first_match(b, behind, len, p) != Some(m) {
                        let n = first_match(b, behind, len, p)->0;
                        assert(occurs_at(b, n, p));
                    }
                }
                lemma_value_survives(b, behind, old_ref, new_ref, field);
                let x = gap + rep;
                assert(r =~= x + rest);
                assert forall|k: int| 0 <= k < x.len() implies !#[trigger] occurs_at(
                    x + rest,
                    k,
                    p,
                ) by {
                    if occurs_at(r, k, p) {
                        let now = r.subrange(k, k + plen);
                        assert(now == p);
                        let a = gap.len() as int;
                        if k + plen <= a {
                            assert(b.subrange(i + k, i + k + plen) =~= now);
                            assert(occurs_at(b, i + k, p));
                        } else if k < a {
                            assert(now[a - k] == r[a]);
                            assert(r[a] == rep[0]);
                        } else if k == a {
                            assert(now[1] == r[a + 1]);
                            assert(r[a + 1] == rep[1]);
                        } else {
                            assert(now[0] == r[k]);
                            assert(r[k] == rep[k - a]);
                        }
                    }
                }
                lemma_value_behind(x, rest, field);
            }
        },
        None => {
            lemma_value_in_gap(b, i, len, r, Seq::empty(), field);
            assert(r + Seq::<char>::empty() =~= r);
        },
    }
}

/// A property that starts before an entry ends before it, with its value.
proof fn lemma_marker_before_entry(
    b: Seq<char>,
    m: int,
    at: int,
    reference: Seq<char>,
    field: Seq<char>,
)
    requires
        is_flat(reference),
        is_flat(field),
        is_plain_text(field),
        occurs_at(b, m, property_marker(field)),
        occurs_at(b, at, instance_entry(reference)),
        m < at,
        ({
            let from = m + property_marker(field).len();
            first_char(b, from, b.len() as int, '"') matches Some(q) && !ends_with(
                b.subrange(from, q),
                "(reference "@,
            )
        }),
    ensures
        first_char(b, m + property_marker(field).len(), b.len() as int, '"')->0 < at,
{
    let p = property_marker(field);
    let e = instance_entry(reference);
    let plen = p.len() as int;
    let len = b.len() as int;
    let from = m + plen;
    lemma_entry_opens(reference);
    lemma_marker_opens(field);
    lemma_marker(field);
    lemma_first_char(b, from, len, '"');
    let q = first_char(b, from, len, '"')->0;
    let here = b.subrange(m, from);
    let there = b.subrange(at, at + e.len());
    assert(here == p);
    assert(there == e);
    assert(there[0] == b[at]);
    if at < from {
        assert(here[at - m] == b[at]);
        assert(false);
    }
    if q >= at {
        // The value's closing quote is the entry's first.
        assert(there[11] == b[at + 11]);
        if q < at + 11 {
            assert(there[q - at] == b[q]);
            assert(false);
        }
        assert(q == at + 11);
        let value = b.subrange(from, q);
        assert(value.skip(value.len() - 11) =~= e.take(11)) by {
            assert forall|j: int| 0 <= j < 11 implies value[value.len() - 11 + j] == e[j] by {
                assert(there[j] == b[at + j]);
            }
        }
        reveal_strlit("(reference ");
        assert(false);
    }
}

/// A property and its value that lie in `i..at` are read from a copy of that.
proof fn lemma_value_in_gap(
    b: Seq<char>,
    i: int,
    at: int,
    gap: Seq<char>,
    rest: Seq<char>,
    field: Seq<char>,
)
    requires
        0 <= i <= at <= b.len(),
        gap == b.subrange(i, at),
        ({
            let p = property_marker(field);
            first_match(b, i, b.len() as int, p) matches Some(m) && first_char(
                b,
                m + p.len(),
                b.len() as int,
                '"',
            ) matches Some(q) && q < at
        }),
    ensures
        value_from(gap + rest, 0, field) == value_from(b, i, field),
{
    let p = property_marker(field);
    let plen = p.len() as int;
    let len = b.len() as int;
    let r = gap + rest;
    let rlen = r.len() as int;
    lemma_marker(field);
    lemma_first_match(b, i, len, p);
    lemma_first_match(r, 0, rlen, p);
    let m = first_match(b, i, len, p)->0;
    let from = m + plen;
    lemma_first_char(b, from, len, '"');
    let q = first_char(b, from, len, '"')->0;
    let n = m - i;
    assert(r.subrange(n, n + plen) =~= b.subrange(m, from));
    assert(occurs_at(r, n, p));
    let found = first_match(r, 0, rlen, p)->0;
    assert(occurs_at(r, found, p));
    if found < n {
        assert(b.subrange(i + found, i + found + plen) =~= r.subrange(found, found + plen));
        assert(occurs_at(b, i + found, p));
        assert(false);
    }
    assert(found == n);
    lemma_first_char(r, n + plen, rlen, '"');
    assert(r[q - i] == b[q]);
    assert forall|k: int| n + plen <= k < q - i implies r[k] != '"' by {
        assert(r[k] == b[i + k]);
    }
    assert(first_char(r, n + plen, rlen, '"') == Some(q - i));
    assert(r.subrange(n + plen, q - i) =~= b.subrange(from, q));
}

// ─── Readings stay where a property is added ─────────────────────────────────

/// Setting one property adds no other.
proof fn lemma_absent_kept(b: Seq<char>, field: Seq<char>, new_val: Seq<char>, other: Seq<char>)
    requires
        is_flat(field),
        is_plain_text(field),
        value_of(b, field) is Some,
        is_plain_text(new_val),
        !ends_with(new_val, "(property "@),
        is_flat(other),
        is_plain_text(other),
        field != other,
        !contains_text(b, property_marker(other)),
    ensures
        !contains_text(with_value(b, field, new_val), property_marker(other)),
{
    let c = with_value(b, field, new_val);
    let pat = property_marker(other);
    lemma_parts(b, field, new_val);
    lemma_marker_opens(field);
    lemma_marker_opens(other);
    let differ = lemma_markers_differ(field, other);
    assert(quote_free(new_val));
    let u = value_of(b, field)->0;
    if contains_text(c, pat) {
        let k = choose|k: int| #[trigger] occurs_at(c, k, pat);
        assert(occurs_at(c, k, pat));
        lemma_occurrence_kept(
            before_mark(b, field),
            property_marker(field),
            new_val,
            u,
            behind_value(b, field),
            pat,
            10,
            differ,
            k,
        );
        assert(false);
    }
}

/// In `y`, white space, a marker, a value and text with no quote but its first,
/// the markers of other properties are those in `y`.
proof fn lemma_added_is_alone(
    y: Seq<char>,
    gap: Seq<char>,
    name: Seq<char>,
    value: Seq<char>,
    end: Seq<char>,
    other: Seq<char>,
    k: int,
)
    requires
        is_flat(name),
        is_plain_text(name),
        is_plain_text(value),
        is_flat(other),
        is_plain_text(other),
        name != other,
        is_blank(gap),
        opens_quoted(end),
        occurs_at(y + gap + property_marker(name) + value + end, k, property_marker(other)),
    ensures
        k + property_marker(other).len() <= y.len(),
{
    let m = property_marker(name);
    let pat = property_marker(other);
    let c = y + gap + m + value + end;
    let len = pat.len() as int;
    let z = y.len() as int;
    let a = z + gap.len() as int;
    let from = a + m.len() as int;
    let quote = from + value.len() as int;
    let last = k + len - 1;
    lemma_marker_opens(name);
    lemma_marker_opens(other);
    lemma_marker_quotes(other);
    let differ = lemma_markers_differ(name, other);
    let here = c.subrange(k, k + len);
    assert(here == pat);
    assert(here[len - 1] == c[last]);
    assert(here[0] == c[k]);
    assert(here[10] == c[k + 10]);
    if last > quote {
        assert(c[last] == end[last - quote]);
        assert(false);
    }
    if k > a {
        if k < from {
            assert(c[k] == m[k - a]);
        } else if k + 10 < quote {
            assert(c[k + 10] == value[k + 10 - from]);
        }
        assert(false);
    } else if k == a {
        assert(here[differ] == c[a + differ]);
        assert(c[a + differ] == m[differ]);
        assert(false);
    } else if last >= a {
        assert(here[a - k] == c[a]);
        assert(c[a] == m[0]);
        assert(false);
    } else if last >= z {
        assert(c[last] == gap[last - z]);
        assert(is_white_space(gap[last - z]));
        assert(false);
    }
}

/// Text `y` that ends in `)` on the one hand and in a property on the other: the
/// readings of the other properties are the same.
proof fn lemma_added_reads(
    y: Seq<char>,
    gap: Seq<char>,
    name: Seq<char>,
    value: Seq<char>,
    end: Seq<char>,
    other: Seq<char>,
)
    requires
        is_flat(name),
        is_plain_text(name),
        is_plain_text(value),
        is_flat(other),
        is_plain_text(other),
        name != other,
        is_blank(gap),
        opens_quoted(end),
    ensures
        ({
            let b = y.push(')');
            let c = y + gap + property_marker(name) + value + end;
            &&& !contains_text(b, property_marker(other)) ==> !contains_text(
                c,
                property_marker(other),
            )
            &&& holds_plainly(b, other) ==> {
                &&& holds_plainly(c, other)
                &&& value_of(c, other) == value_of(b, other)
                &&& holds_once(b, other) ==> holds_once(c, other)
            }
        }),
{
    let b = y.push(')');
    let c = y + gap + property_marker(name) + value + end;
    let pat = property_marker(other);
    let len = pat.len() as int;
    let z = y.len() as int;
    lemma_marker_quotes(other);
    assert forall|i: int| 0 <= i < z implies b[i] == #[trigger] c[i] by {}
    assert forall|k: int| #[trigger] occurs_at(c, k, pat) implies occurs_at(b, k, pat) by {
        lemma_added_is_alone(y, gap, name, value, end, other, k);
        assert(b.subrange(k, k + len) =~= c.subrange(k, k + len));
    }
    assert forall|k: int| #[trigger] occurs_at(b, k, pat) implies k + len <= z && occurs_at(
        c,
        k,
        pat,
    ) by {
        if k + len > z {
            assert(b.subrange(k, k + len)[len - 1] == b[z]);
        }
        assert(b.subrange(k, k + len) =~= c.subrange(k, k + len));
    }
    if holds_plainly(b, other) {
        lemma_first_match(b, 0, b.len() as int, pat);
        lemma_first_match(c, 0, c.len() as int, pat);
        let m = first_match(b, 0, b.len() as int, pat)->0;
        assert(occurs_at(b, m, pat));
        assert(occurs_at(c, m, pat));
        let n = first_match(c, 0, c.len() as int, pat)->0;
        assert(occurs_at(c, n, pat));
        assert(occurs_at(b, n, pat));
        assert(m == n);
        assert(b.subrange(0, m) =~= c.subrange(0, m));
        lemma_run_same(outside(), b, 0, m, c, 0);
        lemma_first_char(b, m + len, b.len() as int, '"');
        let q = first_char(b, m + len, b.len() as int, '"')->0;
        assert(q < z);
        lemma_quoted_before(b, c, m + len, q);
    }
}

/// Adding one property leaves the readings of the others, and adds no other.
proof fn lemma_added_keeps(
    b: Seq<char>,
    name: Seq<char>,
    value: Seq<char>,
    anchor: (Seq<char>, Seq<char>),
    other: Seq<char>,
)
    requires
        is_block(b),
        is_flat(name),
        is_plain_text(name),
        is_plain_text(value),
        is_flat(anchor.0),
        is_flat(anchor.1),
        !contains_text(b, property_marker(name)),
        is_flat(other),
        is_plain_text(other),
        name != other,
    ensures
        ({
            let v = hidden_property(property_indent(b), name, value, anchor);
            let c = grown(b, b.len() - 1, v);
            &&& !contains_text(b, property_marker(other)) ==> !contains_text(
                c,
                property_marker(other),
            )
            &&& holds_plainly(b, other) ==> {
                &&& holds_plainly(c, other)
                &&& value_of(c, other) == value_of(b, other)
                &&& holds_once(b, other) ==> holds_once(c, other)
            }
        }),
{
    let margin = property_indent(b);
    let c = grown(b, b.len() - 1, hidden_property(margin, name, value, anchor));
    let y = b.drop_last();
    let gap = "\n"@ + margin;
    let end = closing(margin, anchor) + seq![b.last()];
    lemma_before_close(b);
    lemma_added_field(b, name, value, anchor);
    lemma_escaped_plain(value);
    lemma_property_indent_blank(b);
    lemma_closing(margin, anchor);
    lemma_gap_is_blank(margin);
    assert(opens_quoted(end)) by {
        assert forall|k: int| 0 < k < end.len() implies #[trigger] end[k] != '"' by {
            if k < closing(margin, anchor).len() {
                assert(end[k] == closing(margin, anchor)[k]);
            }
        }
    }
    assert(c == y + gap + property_marker(name) + value + end);
    assert(b == y.push(')'));
    lemma_added_reads(y, gap, name, value, end, other);
}

proof fn lemma_gap_is_blank(margin: Seq<char>)
    requires
        is_blank(margin),
    ensures
        is_blank("\n"@ + margin),
        ("\n"@ + margin).len() == margin.len() + 1,
{
    let gap = "\n"@ + margin;
    reveal_strlit("\n");
    assert forall|k: int| 0 <= k < gap.len() implies is_white_space(#[trigger] gap[k]) by {
        if k > 0 {
            assert(gap[k] == margin[k - 1]);
        }
    }
}

/// An instance entry does not reach over the end of a symbol block.
proof fn lemma_entry_inside(b: Seq<char>, k: int, reference: Seq<char>)
    requires
        is_block(b),
        tag_at(b, 0) == "symbol"@,
        is_flat(reference),
        is_plain_text(reference),
        occurs_at(b, k, instance_entry(reference)),
    ensures
        k + instance_entry(reference).len() < b.len(),
{
    let e = instance_entry(reference);
    let len = b.len() as int;
    let l = step(outside(), b[0]);
    let behind = k + e.len() as int;
    lemma_entry_opens(reference);
    lemma_before_close(b);
    reveal_strlit("symbol");
    assert(b.subrange(0, len) =~= b);
    lemma_tag_of_block(b, 0, b);
    lemma_tag_end(b, 1);
    let j = tag_end(b, 1)->0;
    assert(b.subrange(1, j) == "symbol"@);
    assert(b[1] == b.subrange(1, j)[0]);
    assert(b.subrange(k, behind) == e);
    if k == 0 {
        assert(b.subrange(0, e.len() as int)[1] == b[1]);
        assert(false);
    }
    if behind == len {
        lemma_pass_prefix(b, 1, k, l);
        let l1 = run(l, b, 1, k);
        lemma_pass_entry(l1, reference);
        reveal(passes);
        assert(e.skip(0) =~= b.skip(k));
        lemma_close_none_same(e, 0, l1, b, k);
        assert(false);
    }
}

/// Adding a property leaves instance entries.
proof fn lemma_added_keeps_entry(b: Seq<char>, v: Seq<char>, reference: Seq<char>)
    requires
        is_block(b),
        tag_at(b, 0) == "symbol"@,
        is_flat(reference),
        is_plain_text(reference),
        contains_text(b, instance_entry(reference)),
    ensures
        contains_text(grown(b, b.len() - 1, v), instance_entry(reference)),
{
    let e = instance_entry(reference);
    let c = grown(b, b.len() - 1, v);
    let k = choose|k: int| #[trigger] occurs_at(b, k, e);
    assert(occurs_at(b, k, e));
    lemma_entry_inside(b, k, reference);
    assert(c.subrange(k, k + e.len()) =~= b.subrange(k, k + e.len()));
    assert(occurs_at(c, k, e));
}

// ─── What a symbol shows ─────────────────────────────────────────────────────

proof fn lemma_shown_value(b: Seq<char>, reference: Seq<char>)
    requires
        has_one_reference(b),
        shows(b, reference),
        is_plain_text(reference),
    ensures
        value_of(b, "Reference"@) == Some(reference),
{
    let p = property_marker("Reference"@);
    let q = reference_property(reference);
    let len = b.len() as int;
    reveal_strlit("\"");
    lemma_marker("Reference"@);
    let k = choose|k: int| #[trigger] occurs_at(b, k, q);
    assert(occurs_at(b, k, q));
    let here = b.subrange(k, k + q.len());
    assert(here == q);
    let at = k + p.len();
    let end = at + reference.len();
    assert(b.subrange(k, at) =~= p) by {
        assert forall|j: int| 0 <= j < p.len() implies b[k + j] == p[j] by {
            assert(here[j] == b[k + j]);
            assert(q[j] == p[j]);
        }
    }
    assert(occurs_at(b, k, p));
    assert(first_match(b, 0, len, p) == Some(k));
    assert forall|i: int| at <= i < end implies b[i] == reference[i - at] by {
        assert(here[i - k] == b[i]);
        assert(q[i - k] == reference[i - at]);
    }
    assert(b[end] == '"') by {
        assert(here[end - k] == b[end]);
        assert(q[end - k] == '"');
    }
    lemma_first_char(b, at, len, '"');
    let o = first_char(b, at, len, '"')->0;
    if o < end {
        assert(b[o] == reference[o - at]);
    }
    assert(o == end);
    assert(b.subrange(at, end) =~= reference);
}

proof fn lemma_value_shows(b: Seq<char>, reference: Seq<char>)
    requires
        value_of(b, "Reference"@) == Some(reference),
    ensures
        shows(b, reference),
{
    let p = property_marker("Reference"@);
    let q = reference_property(reference);
    let len = b.len() as int;
    reveal_strlit("\"");
    lemma_marker("Reference"@);
    lemma_first_match(b, 0, len, p);
    let m = first_match(b, 0, len, p)->0;
    let at = m + p.len();
    lemma_first_char(b, at, len, '"');
    let end = first_char(b, at, len, '"')->0;
    assert(b.subrange(m, at) == p);
    assert(b.subrange(m, end + 1) =~= p + b.subrange(at, end) + seq!['"']);
    assert("\""@ =~= seq!['"']);
    assert(occurs_at(b, m, q));
}

proof fn lemma_reference_is_flat()
    ensures
        is_flat("Reference"@),
        is_plain_text("Reference"@),
{
    reveal_strlit("Reference");
}

// ─── A request on a symbol as eeschema writes it ─────────────────────────────

/// Whether the symbol `reference` is written as eeschema writes it: every unit
/// has one `Reference` property, outside strings, and the instances path of the
/// first has an entry for the designator.
pub open spec fn is_tidy(s: Seq<char>, reference: Seq<char>) -> bool {
    &&& is_flat(reference)
    &&& is_plain_text(reference)
    &&& instance_block(s, reference) matches Some(n) && contains_text(
        node_text(s, n),
        instance_entry(reference),
    )
    &&& forall|k: int|
        0 <= k < instance_blocks(s, reference).len() ==> has_one_reference(
            node_text(s, #[trigger] instance_blocks(s, reference)[k]),
        )
}

/// Whether a symbol block has the property `field`, outside strings, with a value
/// that needs no escapes and opens nothing.
pub open spec fn is_settable(b: Seq<char>, field: Seq<char>) -> bool {
    &&& is_flat(field)
    &&& field != "Reference"@
    &&& holds_plainly(b, field)
    &&& opens_nothing(value_of(b, field)->0)
}

/// The block of the symbol that `reference` stands for.
pub open spec fn block_of(s: Seq<char>, reference: Seq<char>) -> Seq<char> {
    node_text(s, instance_block(s, reference)->0)
}

proof fn lemma_tidy_block(s: Seq<char>, reference: Seq<char>)
    requires
        is_tidy(s, reference),
    ensures
        has_one_reference(block_of(s, reference)),
        holds_once(block_of(s, reference), "Reference"@),
        shows(block_of(s, reference), reference),
        value_of(block_of(s, reference), "Reference"@) == Some(reference),
        is_block(block_of(s, reference)),
{
    let j = lemma_instance_index(s, reference);
    let b = block_of(s, reference);
    assert(has_one_reference(node_text(s, instance_blocks(s, reference)[0])));
    lemma_symbols(s);
    lemma_tag_of_node(s, symbols(s)[j]);
    lemma_showing(s, symbols(s), reference);
    assert(shows(node_text(s, instance_blocks(s, reference)[0]), reference));
    lemma_shown_value(b, reference);
}

proof fn lemma_tidy_front(s: Seq<char>, reference: Seq<char>)
    requires
        is_tidy(s, reference),
    ensures
        same_front(block_of(s, reference), block_of(s, reference)),
{
    lemma_tidy_block(s, reference);
    lemma_set_keeps_front(block_of(s, reference), "Reference"@, reference);
}

/// Whether a field can be set in a symbol block: it has it in that form, or does
/// not have it.
pub open spec fn fits(b: Seq<char>, field: Seq<char>) -> bool {
    ||| is_settable(b, field)
    ||| is_flat(field) && is_plain_text(field) && field != "Reference"@ && !contains_text(
        b,
        property_marker(field),
    )
}

/// Whether one step set `field` to `value` and left the rest: nothing failed, the
/// symbol is found again at its place among the symbols, its other properties read
/// as they did, and what comes before its properties stays.
pub open spec fn sets_only(
    before: EditState,
    after: EditState,
    field: Seq<char>,
    value: Seq<char>,
) -> bool {
    let reference = before.reference;
    let was = block_of(before.content, reference);
    let block = block_of(after.content, reference);
    &&& after.errors == before.errors
    &&& after.reference == reference
    &&& after.changed.len() == before.changed.len() + 1
    &&& is_tidy(after.content, reference)
    &&& is_settable(block, field)
    &&& value_of(block, field) == Some(value)
    &&& same_front(was, block)
    &&& forall|other: Seq<char>|
        other != field && #[trigger] fits(was, other) ==> fits(block, other) && value_of(
            block,
            other,
        ) == value_of(was, other)
    &&& forall|other: Seq<char>|
        other != field && #[trigger] is_settable(was, other) ==> is_settable(block, other)
    &&& symbols(after.content).len() == symbols(before.content).len()
    &&& forall|k: int|
        0 <= k < symbols(before.content).len() && Some(#[trigger] symbols(before.content)[k])
            == instance_block(before.content, reference) ==> instance_block(
            after.content,
            reference,
        ) == Some(symbols(after.content)[k])
}

proof fn lemma_absent_value(b: Seq<char>, field: Seq<char>)
    requires
        !contains_text(b, property_marker(field)),
    ensures
        value_of(b, field) is None,
{
    lemma_marker(field);
    lemma_first_match(b, 0, b.len() as int, property_marker(field));
}

/// Where one placement's block is exchanged for another tidy one, the symbol
/// stays tidy.
proof fn lemma_stays_tidy(s: Seq<char>, t: Seq<char>, reference: Seq<char>, c: Seq<char>)
    requires
        is_tidy(s, reference),
        has_one_reference(c),
        contains_text(c, instance_entry(reference)),
        instance_block(t, reference) is Some,
        node_text(t, instance_block(t, reference)->0) == c,
        symbols(t).len() == symbols(s).len(),
        forall|k: int|
            0 <= k < symbols(s).len() ==> node_text(t, #[trigger] symbols(t)[k]) == if Some(
                symbols(s)[k],
            ) == instance_block(s, reference) {
                c
            } else {
                node_text(s, symbols(s)[k])
            },
    ensures
        is_tidy(t, reference),
{
    let all = instance_blocks(t, reference);
    lemma_showing(t, symbols(t), reference);
    assert forall|k: int| 0 <= k < all.len() implies has_one_reference(
        node_text(t, #[trigger] all[k]),
    ) by {
        let i = choose|i: int| 0 <= i < symbols(t).len() && symbols(t)[i] == all[k];
        assert(shows(node_text(t, all[k]), reference));
        assert(node_text(t, symbols(t)[i]) == node_text(t, all[k]));
        if Some(symbols(s)[i]) != instance_block(s, reference) {
            lemma_placement_has_one_reference(s, reference, i);
        }
    }
}

/// Setting a property of such a symbol succeeds, reads back, and leaves the
/// symbol's other properties and its place among the symbols.
pub proof fn law_set_property_keeps_the_rest(
    state: EditState,
    field: Seq<char>,
    value: Seq<char>,
)
    requires
        is_tidy(state.content, state.reference),
        is_settable(block_of(state.content, state.reference), field),
        is_plain_text(value),
        opens_nothing(value),
    ensures
        sets_only(state, state.set(field, value), field, value),
{
    let s = state.content;
    let reference = state.reference;
    let n = instance_block(s, reference)->0;
    let b = node_text(s, n);
    let c = with_value(b, field, value);
    let name = "Reference"@;
    let j = lemma_instance_index(s, reference);
    lemma_tidy_block(s, reference);
    lemma_reference_is_flat();
    lemma_tag_of_node(s, n);
    lemma_tagged(s, nodes_in(s, 0, s.len() as int, 1), "symbol"@);
    lemma_update_is_local(s, reference, field, value);
    lemma_with_value(b, field, value);
    lemma_parts(b, field, value);
    let m = before_mark(b, field).len() as int;
    assert(b.subrange(0, m) =~= c.subrange(0, m));
    lemma_run_same(outside(), b, 0, m, c, 0);
    assert(is_settable(c, field));
    lemma_other_property(b, field, value, name);
    lemma_value_shows(c, reference);
    lemma_entry_kept(b, field, value, reference);
    lemma_set_keeps_front(b, field, value);
    lemma_placement_replaced(s, reference, c);
    let t = state.set(field, value).content;
    lemma_stays_tidy(s, t, reference, c);
    assert forall|other: Seq<char>| other != field && #[trigger] is_settable(b, other) implies
        is_settable(c, other) && value_of(c, other) == value_of(b, other) by {
        lemma_other_property(b, field, value, other);
    }
    assert forall|other: Seq<char>| other != field && #[trigger] fits(b, other) implies fits(
        c,
        other,
    ) && value_of(c, other) == value_of(b, other) by {
        if !is_settable(b, other) {
            lemma_absent_kept(b, field, value, other);
            lemma_absent_value(b, other);
            lemma_absent_value(c, other);
        } else {
            assert(is_settable(c, other));
        }
    }
}

/// Adding a property to such a symbol succeeds, reads back, and leaves the
/// symbol's other properties and its place among the symbols.
pub proof fn law_added_property_keeps_the_rest(
    state: EditState,
    name: Seq<char>,
    value: Seq<char>,
    anchor: (Seq<char>, Seq<char>),
)
    requires
        is_tidy(state.content, state.reference),
        is_flat(name),
        is_plain_text(name),
        !reserved(name),
        !has_property(state.content, state.reference, name),
        is_plain_text(value),
        opens_nothing(value),
        is_flat(anchor.0),
        is_flat(anchor.1),
    ensures
        sets_only(state, state.set_field(name, Some(value), Some(anchor)), name, value),
{
    let s = state.content;
    let reference = state.reference;
    let b = block_of(s, reference);
    let v = hidden_property(property_indent(b), name, value, anchor);
    let c = grown(b, b.len() - 1, v);
    let shown = "Reference"@;
    lemma_tidy_block(s, reference);
    lemma_reference_is_flat();
    lemma_appended(s, reference, name, value, anchor);
    lemma_before_close(b);
    lemma_added_field_set(b, name, value, value, anchor);
    lemma_added_field_state(b, name, value, anchor);
    lemma_added_keeps(b, name, value, anchor, shown);
    let j = lemma_instance_index(s, reference);
    lemma_symbols(s);
    lemma_tag_of_node(s, symbols(s)[j]);
    lemma_tagged(s, nodes_in(s, 0, s.len() as int, 1), "symbol"@);
    lemma_added_keeps_entry(b, v, reference);
    lemma_added_keeps_front(b, v);
    let t = state.set_field(name, Some(value), Some(anchor)).content;
    lemma_stays_tidy(s, t, reference, c);
    assert(is_settable(c, name));
    assert forall|other: Seq<char>| other != name && #[trigger] is_settable(b, other) implies
        is_settable(c, other) && value_of(c, other) == value_of(b, other) by {
        lemma_added_keeps(b, name, value, anchor, other);
    }
    assert forall|other: Seq<char>| other != name && #[trigger] fits(b, other) implies fits(
        c,
        other,
    ) && value_of(c, other) == value_of(b, other) by {
        lemma_added_keeps(b, name, value, anchor, other);
        if !is_settable(b, other) {
            lemma_absent_value(b, other);
            lemma_absent_value(c, other);
        } else {
            assert(is_settable(c, other));
        }
    }
}

/// An added property stands outside strings.
proof fn lemma_added_field_state(
    b: Seq<char>,
    name: Seq<char>,
    value: Seq<char>,
    anchor: (Seq<char>, Seq<char>),
)
    requires
        is_block(b),
        is_plain_text(name),
        is_plain_text(value),
        is_flat(anchor.0),
        is_flat(anchor.1),
        !contains_text(b, property_marker(name)),
    ensures
        holds_plainly(
            grown(b, b.len() - 1, hidden_property(property_indent(b), name, value, anchor)),
            name,
        ),
{
    let margin = property_indent(b);
    let c = grown(b, b.len() - 1, hidden_property(margin, name, value, anchor));
    let gap = "\n"@ + margin;
    let z = b.len() - 1;
    let o = outside();
    lemma_before_close(b);
    lemma_added_field(b, name, value, anchor);
    lemma_added_field_set(b, name, value, value, anchor);
    lemma_property_indent_blank(b);
    let at = z + gap.len() as int;
    lemma_gap_is_blank(margin);
    assert(b.subrange(0, z) =~= c.subrange(0, z));
    lemma_run_same(o, b, 0, z, c, 0);
    let l = run(o, b, 0, z);
    lemma_pass_blank(l, gap);
    assert(run(l, gap, 0, gap.len() as int) == l) by {
        reveal(passes);
    }
    assert(gap.subrange(0, gap.len() as int) =~= c.subrange(z, z + gap.len()));
    lemma_run_same(l, gap, 0, gap.len() as int, c, z);
    lemma_run_split(o, c, 0, z, at);
}

/// Setting a custom field of such a symbol succeeds, whether it has the field or
/// not, reads back, and leaves the rest.
pub proof fn law_set_field_keeps_the_rest(
    state: EditState,
    name: Seq<char>,
    value: Seq<char>,
    anchor: (Seq<char>, Seq<char>),
)
    requires
        is_tidy(state.content, state.reference),
        fits(block_of(state.content, state.reference), name),
        !reserved(name),
        is_plain_text(value),
        opens_nothing(value),
        is_flat(anchor.0),
        is_flat(anchor.1),
    ensures
        sets_only(state, state.set_field(name, Some(value), Some(anchor)), name, value),
{
    let b = block_of(state.content, state.reference);
    let m = property_marker(name);
    if is_settable(b, name) {
        lemma_marker(name);
        lemma_first_match(b, 0, b.len() as int, m);
        assert(occurs_at(b, first_match(b, 0, b.len() as int, m)->0, m));
        law_set_property_keeps_the_rest(state, name, value);
    } else {
        law_added_property_keeps_the_rest(state, name, value, anchor);
    }
}

proof fn lemma_entry_counted(s: Seq<char>, ns: Seq<Node>, k: int, reference: Seq<char>)
    requires
        is_flat(reference),
        0 <= k < ns.len(),
        0 <= ns[k].start <= ns[k].end < s.len(),
        contains_text(node_text(s, ns[k]), instance_entry(reference)),
    ensures
        entry_count(s, ns, reference) > 0,
    decreases ns.len(),
{
    let e = instance_entry(reference);
    if k == ns.len() - 1 {
        let n = ns[k];
        let b = node_text(s, n);
        lemma_entry_opens(reference);
        lemma_first_match(b, 0, b.len() as int, e);
        let at = choose|at: int| #[trigger] occurs_at(b, at, e);
        assert(occurs_at(b, at, e));
        lemma_match_in_part(s, n.start, n.end + 1, 0, e);
        lemma_first_match(s, n.start, n.end + 1, e);
        assert(count_from(s, n.start, n.end + 1, e) > 0);
    } else {
        assert(ns.drop_last()[k] == ns[k]);
        lemma_entry_counted(s, ns.drop_last(), k, reference);
    }
}

/// Rewriting entries makes no block show another designator.
proof fn lemma_rewriting_shows_nothing(
    b: Seq<char>,
    i: int,
    old_ref: Seq<char>,
    new_ref: Seq<char>,
    reference: Seq<char>,
)
    requires
        0 <= i <= b.len(),
        is_flat(old_ref),
        is_flat(new_ref),
        is_flat(reference),
        shows(
            replaced_from(
                b,
                i,
                b.len() as int,
                instance_entry(old_ref),
                instance_entry(new_ref),
            ),
            reference,
        ),
    ensures
        shows(b, reference),
    decreases b.len() - i,
{
    let len = b.len() as int;
    let pat = instance_entry(old_ref);
    let rep = instance_entry(new_ref);
    let q = reference_property(reference);
    let r = replaced_from(b, i, len, pat, rep);
    lemma_entry_opens(old_ref);
    lemma_entry_opens(new_ref);
    lemma_shown_opens(reference);
    lemma_first_match(b, i, len, pat);
    let k = choose|k: int| #[trigger] occurs_at(r, k, q);
    assert(occurs_at(r, k, q));
    let here = r.subrange(k, k + q.len());
    assert(here == q);
    assert(here[0] == r[k]);
    assert(here[1] == r[k + 1]);
    match first_match(b, i, len, pat) {
        None => {
            assert(b.subrange(i + k, i + k + q.len()) =~= here);
            assert(occurs_at(b, i + k, q));
        },
        Some(at) => {
            let head = b.subrange(i, at);
            let rest = replaced_from(b, at + pat.len(), len, pat, rep);
            let n = head.len() as int;
            let behind = n + rep.len() as int;
            assert(r == head + rep + rest);
            assert(r[n] == rep[0]);
            if k + q.len() <= n {
                assert(b.subrange(i + k, i + k + q.len()) =~= here);
                assert(occurs_at(b, i + k, q));
            } else if k < n {
                assert(here[n - k] == r[n]);
                assert(false);
            } else if k < behind {
                assert(r[k] == rep[k - n]);
                assert(r[k + 1] == rep[k + 1 - n]);
                assert(false);
            } else {
                assert(rest.subrange(k - behind, k - behind + q.len()) =~= here);
                assert(occurs_at(rest, k - behind, q));
                lemma_rewriting_shows_nothing(b, at + pat.len(), old_ref, new_ref, reference);
            }
        },
    }
}

/// A `Reference` property opens one list.
pub proof fn lemma_shown_opens(reference: Seq<char>)
    requires
        is_flat(reference),
    ensures
        ({
            let q = reference_property(reference);
            &&& q.len() > 2
            &&& q[0] == '('
            &&& q[1] == 'p'
            &&& forall|k: int| 0 < k < q.len() ==> #[trigger] q[k] != '('
        }),
{
    let q = reference_property(reference);
    let m = property_marker("Reference"@);
    reveal_strlit("\"");
    lemma_reference_is_flat();
    lemma_marker("Reference"@);
    lemma_marker_opens("Reference"@);
    assert forall|k: int| 0 < k < q.len() implies #[trigger] q[k] != '(' by {
        if k < m.len() {
            assert(q[k] == m[k]);
        } else if k < m.len() + reference.len() {
            assert(q[k] == reference[k - m.len()]);
        }
    }
}

/// What became of the block of a symbol that was renamed: it shows the new
/// designator and not the old one, holds no entry for the old one, and the new
/// entry where it held the old one; its other properties read as they did.
pub open spec fn is_renamed(
    before: Seq<char>,
    block: Seq<char>,
    old_ref: Seq<char>,
    new_ref: Seq<char>,
) -> bool {
    &&& value_of(block, "Reference"@) == Some(new_ref)
    &&& shows(block, new_ref)
    &&& !shows(block, old_ref)
    &&& !contains_text(block, instance_entry(old_ref))
    &&& contains_text(before, instance_entry(old_ref)) ==> contains_text(
        block,
        instance_entry(new_ref),
    )
    &&& forall|other: Seq<char>| #[trigger]
        is_settable(before, other) ==> value_of(block, other) == value_of(before, other)
}

/// A symbol with the new property, and with the new property and its entries
/// rewritten.
proof fn lemma_unit_renamed(b: Seq<char>, old_ref: Seq<char>, new_ref: Seq<char>)
    requires
        is_block(b),
        has_one_reference(b),
        shows(b, old_ref),
        is_flat(old_ref),
        is_plain_text(old_ref),
        is_flat(new_ref),
        is_plain_text(new_ref),
        old_ref != new_ref,
    ensures
        ({
            let c = with_value(b, "Reference"@, new_ref);
            let pat = instance_entry(old_ref);
            let block = replaced_from(c, 0, c.len() as int, pat, instance_entry(new_ref));
            &&& shows(c, new_ref)
            &&& contains_text(b, pat) ==> contains_text(c, pat)
            &&& !contains_text(c, pat) ==> is_renamed(b, c, old_ref, new_ref)
            &&& is_renamed(b, block, old_ref, new_ref)
        }),
{
    let name = "Reference"@;
    let c = with_value(b, name, new_ref);
    let pat = instance_entry(old_ref);
    let rep = instance_entry(new_ref);
    let block = replaced_from(c, 0, c.len() as int, pat, rep);
    lemma_reference_is_flat();
    lemma_shown_value(b, old_ref);
    lemma_flat_opens_nothing(old_ref);
    lemma_flat_opens_nothing(new_ref);
    lemma_with_value(b, name, new_ref);
    lemma_value_shows(c, new_ref);
    lemma_renamed_block(b, old_ref, new_ref);
    if contains_text(b, pat) {
        lemma_entry_kept(b, name, new_ref, old_ref);
        lemma_entry_opens(old_ref);
        lemma_entry_written(c, pat, rep);
    }
    law_no_entry_keeps_the_old_designator(c, 0, c.len() as int, old_ref, new_ref);
    if shows(block, old_ref) {
        lemma_rewriting_shows_nothing(c, 0, old_ref, new_ref, old_ref);
    }
    assert(value_from(c, 0, name) == value_of(c, name));
    lemma_value_survives(c, 0, old_ref, new_ref, name);
    assert(value_from(block, 0, name) == value_of(block, name));
    lemma_value_shows(block, new_ref);
    assert forall|other: Seq<char>| #[trigger] is_settable(b, other) implies value_of(c, other)
        == value_of(b, other) && value_of(block, other) == value_of(b, other) by {
        lemma_other_property(b, name, new_ref, other);
        assert(value_from(c, 0, other) == value_of(c, other));
        lemma_value_survives(c, 0, old_ref, new_ref, other);
        assert(value_from(block, 0, other) == value_of(block, other));
    }
}

/// Where no entry was counted, none of the blocks holds one.
proof fn lemma_no_entry(s: Seq<char>, k: int, shown: Seq<char>, reference: Seq<char>)
    requires
        is_flat(reference),
        0 <= k < symbols(s).len(),
        shows(node_text(s, symbols(s)[k]), shown),
        entry_count(s, instance_blocks(s, shown), reference) == 0,
    ensures
        !contains_text(node_text(s, symbols(s)[k]), instance_entry(reference)),
{
    let all = instance_blocks(s, shown);
    lemma_showing_contains(s, symbols(s), shown, k);
    let i = choose|i: int| 0 <= i < all.len() && all[i] == symbols(s)[k];
    lemma_symbols(s);
    if contains_text(node_text(s, symbols(s)[k]), instance_entry(reference)) {
        lemma_entry_counted(s, all, i, reference);
    }
}

/// A rename reaches every unit, in both places that a designator lives in. Every
/// symbol that showed the old designator shows the new one, holds no entry for the
/// old one, and holds the new entry where it held the old. No symbol shows the old
/// designator any more, and those that showed neither stay as they are. Where a
/// unit held an entry for the old designator, nothing failed.
pub proof fn law_rename_reaches_every_unit(state: EditState, new_ref: Seq<char>)
    requires
        instance_blocks(state.content, state.reference).len() > 0,
        forall|k: int|
            0 <= k < instance_blocks(state.content, state.reference).len() ==> has_one_reference(
                node_text(
                    state.content,
                    #[trigger] instance_blocks(state.content, state.reference)[k],
                ),
            ),
        is_flat(state.reference),
        is_plain_text(state.reference),
        is_flat(new_ref),
        is_plain_text(new_ref),
        new_ref != state.reference,
    ensures
        ({
            let s = state.content;
            let after = state.rename(new_ref);
            let u = after.content;
            &&& after.reference == new_ref
            &&& symbols(u).len() == symbols(s).len()
            &&& instance_blocks(u, state.reference).len() == 0
            &&& forall|k: int|
                0 <= k < symbols(s).len() ==> {
                    let before = node_text(s, #[trigger] symbols(s)[k]);
                    let block = node_text(u, symbols(u)[k]);
                    if shows(before, state.reference) {
                        is_renamed(before, block, state.reference, new_ref)
                    } else {
                        !shows(before, new_ref) ==> block == before
                    }
                }
            &&& (exists|k: int|
                0 <= k < symbols(s).len() && shows(
                    node_text(s, #[trigger] symbols(s)[k]),
                    state.reference,
                ) && contains_text(
                    node_text(s, symbols(s)[k]),
                    instance_entry(state.reference),
                )) ==> after.errors == state.errors && after.changed.len() == state.changed.len()
                + 2
        }),
{
    let s = state.content;
    let old_ref = state.reference;
    let ns = symbols(s);
    let pat = instance_entry(old_ref);
    let after = state.rename(new_ref);
    let u = after.content;
    lemma_renamed_texts(s, old_ref, new_ref);
    let t = renamed(s, old_ref, new_ref)->Ok_0;
    let ts = symbols(t);
    lemma_symbols(s);
    assert forall|k: int|
        0 <= k < ns.len() && shows(node_text(s, #[trigger] ns[k]), old_ref) implies {
        let b = node_text(s, ns[k]);
        &&& is_block(b)
        &&& has_one_reference(b)
        &&& shows(node_text(t, ts[k]), new_ref)
        &&& contains_text(b, pat) ==> contains_text(node_text(t, ts[k]), pat)
    } by {
        lemma_tag_of_node(s, ns[k]);
        lemma_placement_has_one_reference(s, old_ref, k);
        lemma_unit_renamed(node_text(s, ns[k]), old_ref, new_ref);
    }
    let counted = entry_count(t, instance_blocks(t, new_ref), old_ref) > 0;
    assert(instance_blocks(t, new_ref).len() > 0) by {
        let j = lemma_instance_index(s, old_ref);
        lemma_showing(s, ns, old_ref);
        assert(shows(node_text(s, instance_blocks(s, old_ref)[0]), old_ref));
        assert(shows(node_text(s, ns[j]), old_ref));
        lemma_showing_contains(t, ts, new_ref, j);
    }
    assert(rewritten(t, old_ref, new_ref) is Ok <==> counted);
    if counted {
        lemma_rewritten_texts(t, old_ref, new_ref);
    }
    let us = symbols(u);
    assert(us.len() == ns.len());
    assert forall|k: int| 0 <= k < ns.len() implies {
        let before = node_text(s, #[trigger] ns[k]);
        let block = node_text(u, us[k]);
        &&& !shows(block, old_ref)
        &&& if shows(before, old_ref) {
            is_renamed(before, block, old_ref, new_ref)
        } else {
            !shows(before, new_ref) ==> block == before
        }
    } by {
        let before = node_text(s, ns[k]);
        let c = node_text(t, ts[k]);
        let block = node_text(u, us[k]);
        if shows(before, old_ref) {
            assert(c == with_value(before, "Reference"@, new_ref));
            lemma_unit_renamed(before, old_ref, new_ref);
            if !counted {
                lemma_no_entry(t, k, new_ref, old_ref);
            }
        } else {
            assert(c == before);
            if counted && shows(c, new_ref) && shows(block, old_ref) {
                lemma_rewriting_shows_nothing(c, 0, old_ref, new_ref, old_ref);
            }
        }
    }
    assert forall|k: int| 0 <= k < us.len() implies !shows(node_text(u, #[trigger] us[k]), old_ref) by {
        assert(is_node(s, ns[k]));
    }
    lemma_none_showing(u, us, old_ref);
    assert forall|k: int|
        0 <= k < ns.len() && shows(node_text(s, #[trigger] ns[k]), old_ref) && contains_text(
            node_text(s, ns[k]),
            pat,
        ) implies counted by {
        if !counted {
            lemma_no_entry(t, k, new_ref, old_ref);
        }
    }
}

/// Renaming such a symbol succeeds: it shows the new designator and no longer
/// the old one, and its properties read as they did.
pub proof fn law_rename_keeps_the_properties(state: EditState, new_ref: Seq<char>, j: int)
    requires
        is_tidy(state.content, state.reference),
        0 <= j < symbols(state.content).len(),
        instance_block(state.content, state.reference) == Some(symbols(state.content)[j]),
        is_flat(new_ref),
        is_plain_text(new_ref),
        new_ref != state.reference,
    ensures
        ({
            let after = state.rename(new_ref);
            let before = block_of(state.content, state.reference);
            let block = node_text(after.content, symbols(after.content)[j]);
            &&& after.errors == state.errors
            &&& after.reference == new_ref
            &&& after.changed.len() == state.changed.len() + 2
            &&& symbols(after.content).len() == symbols(state.content).len()
            &&& is_renamed(before, block, state.reference, new_ref)
            &&& contains_text(block, instance_entry(new_ref))
        }),
{
    let s = state.content;
    lemma_tidy_block(s, state.reference);
    law_rename_reaches_every_unit(state, new_ref);
    assert(node_text(s, symbols(s)[j]) == block_of(s, state.reference));
}

/// Whether a value can be set: none is given, or the property is there and the
/// value needs no escapes and opens nothing.
pub open spec fn is_fit(b: Seq<char>, field: Seq<char>, value: Option<String>) -> bool {
    value matches Some(text) ==> is_settable(b, field) && is_plain_text(text@) && opens_nothing(
        text@,
    )
}

/// Whether a block reads a value that was given.
pub open spec fn reads(b: Seq<char>, field: Seq<char>, value: Option<String>) -> bool {
    value matches Some(text) ==> value_of(b, field) == Some(text@)
}

/// What holds of the symbol once some of its properties were set.
spec fn carried(before: EditState, after: EditState, j: int) -> bool {
    &&& after.errors == before.errors
    &&& after.reference == before.reference
    &&& is_tidy(after.content, before.reference)
    &&& symbols(after.content).len() == symbols(before.content).len()
    &&& 0 <= j < symbols(after.content).len()
    &&& instance_block(after.content, before.reference) == Some(symbols(after.content)[j])
}

proof fn lemma_set_given(
    state: EditState,
    field: Seq<char>,
    value: Option<String>,
    j: int,
)
    requires
        carried(state, state, j),
        is_fit(block_of(state.content, state.reference), field, value),
    ensures
        ({
            let after = state.set_given(field, value);
            let was = block_of(state.content, state.reference);
            let block = block_of(after.content, state.reference);
            &&& carried(state, after, j)
            &&& reads(block, field, value)
            &&& same_front(was, block)
            &&& value is Some ==> is_settable(block, field)
            &&& forall|other: Seq<char>|
                other != field && #[trigger] fits(was, other) ==> fits(block, other) && value_of(
                    block,
                    other,
                ) == value_of(was, other)
            &&& forall|other: Seq<char>|
                other != field && #[trigger] is_settable(was, other) ==> is_settable(block, other)
        }),
{
    lemma_tidy_front(state.content, state.reference);
    if let Some(text) = value {
        law_set_property_keeps_the_rest(state, field, text@);
        assert(Some(symbols(state.content)[j]) == instance_block(state.content, state.reference));
    }
}

/// Whether a custom field can be set in a symbol block.
pub open spec fn is_fit_field(b: Seq<char>, field: FieldRequest) -> bool {
    &&& fits(b, field.name)
    &&& !reserved(field.name)
    &&& field.value matches Some(value) && is_plain_text(value) && opens_nothing(value)
    &&& field.anchor matches Some(anchor) && is_flat(anchor.0) && is_flat(anchor.1)
}

/// Whether no two of `fields` have one name.
pub open spec fn names_differ(fields: Seq<FieldRequest>) -> bool {
    forall|i: int, k: int|
        0 <= i < k < fields.len() ==> (#[trigger] fields[i]).name != (#[trigger] fields[k]).name
}

/// Whether `name` is the name of one of `fields`.
pub open spec fn is_named(fields: Seq<FieldRequest>, name: Seq<char>) -> bool {
    exists|k: int| 0 <= k < fields.len() && (#[trigger] fields[k]).name == name
}

proof fn lemma_fields_set(state: EditState, fields: Seq<FieldRequest>, j: int)
    requires
        carried(state, state, j),
        names_differ(fields),
        forall|k: int|
            0 <= k < fields.len() ==> is_fit_field(
                block_of(state.content, state.reference),
                #[trigger] fields[k],
            ),
    ensures
        ({
            let after = fields_set(state, fields);
            let was = block_of(state.content, state.reference);
            let block = block_of(after.content, state.reference);
            &&& carried(state, after, j)
            &&& same_front(was, block)
            &&& forall|k: int|
                0 <= k < fields.len() ==> is_settable(block, (#[trigger] fields[k]).name)
                    && value_of(block, fields[k].name) == fields[k].value
            &&& forall|other: Seq<char>|
                !is_named(fields, other) && #[trigger] fits(was, other) ==> fits(block, other)
                    && value_of(block, other) == value_of(was, other)
            &&& forall|other: Seq<char>|
                !is_named(fields, other) && #[trigger] is_settable(was, other) ==> is_settable(
                    block,
                    other,
                )
        }),
    decreases fields.len(),
{
    lemma_tidy_front(state.content, state.reference);
    if fields.len() > 0 {
        let front = fields.drop_last();
        let last = fields.last();
        let reference = state.reference;
        let was = block_of(state.content, reference);
        let mid = fields_set(state, front);
        let between = block_of(mid.content, reference);
        let after = fields_set(state, fields);
        let block = block_of(after.content, reference);
        assert forall|k: int| 0 <= k < front.len() implies is_fit_field(was, #[trigger] front[k]) by {
            assert(front[k] == fields[k]);
        }
        assert forall|i: int, k: int| 0 <= i < k < front.len() implies (#[trigger] front[i]).name
            != (#[trigger] front[k]).name by {
            assert(front[i] == fields[i] && front[k] == fields[k]);
        }
        lemma_fields_set(state, front, j);
        assert(fields[fields.len() - 1] == last);
        assert(is_fit_field(was, last));
        assert(!is_named(front, last.name)) by {
            if is_named(front, last.name) {
                let k = choose|k: int| 0 <= k < front.len() && (#[trigger] front[k]).name
                    == last.name;
                assert(front[k] == fields[k]);
            }
        }
        assert(fits(was, last.name));
        assert(fits(between, last.name));
        law_set_field_keeps_the_rest(mid, last.name, last.value->0, last.anchor->0);
        assert(Some(symbols(mid.content)[j]) == instance_block(mid.content, reference));
        assert forall|k: int| 0 <= k < fields.len() implies is_settable(
            block,
            (#[trigger] fields[k]).name,
        ) && value_of(block, fields[k].name) == fields[k].value by {
            if k < front.len() {
                assert(front[k] == fields[k]);
                assert(fields[k].name != fields[fields.len() - 1].name);
                assert(is_settable(between, front[k].name));
                assert(fits(between, front[k].name));
            }
        }
        assert forall|other: Seq<char>| !is_named(fields, other) implies other != last.name
            && !is_named(front, other) by {
            if is_named(front, other) {
                let k = choose|k: int| 0 <= k < front.len() && (#[trigger] front[k]).name == other;
                assert(fields[k].name == other);
            }
            if other == last.name {
                assert(fields[fields.len() - 1].name == other);
            }
        }
    }
}

/// Whether a request can be made of a symbol block.
pub open spec fn is_fit_request(
    b: Seq<char>,
    request: EditRequest,
    fields: Seq<FieldRequest>,
) -> bool {
    &&& is_fit(b, "Value"@, request.value)
    &&& is_fit(b, "Footprint"@, request.footprint)
    &&& is_fit(b, "Datasheet"@, request.datasheet)
    &&& forall|k: int| 0 <= k < fields.len() ==> is_fit_field(b, #[trigger] fields[k])
    &&& names_differ(fields)
}

proof fn lemma_properties_set(
    state: EditState,
    request: EditRequest,
    fields: Seq<FieldRequest>,
    j: int,
)
    requires
        carried(state, state, j),
        is_fit_request(block_of(state.content, state.reference), request, fields),
    ensures
        ({
            let after = state.properties_set(request);
            let was = block_of(state.content, state.reference);
            let block = block_of(after.content, state.reference);
            &&& carried(state, after, j)
            &&& same_front(was, block)
            &&& forall|k: int| 0 <= k < fields.len() ==> is_fit_field(block, #[trigger] fields[k])
            &&& reads(block, "Value"@, request.value)
            &&& reads(block, "Footprint"@, request.footprint)
            &&& reads(block, "Datasheet"@, request.datasheet)
            &&& request.value is Some ==> is_settable(block, "Value"@)
            &&& request.footprint is Some ==> is_settable(block, "Footprint"@)
            &&& request.datasheet is Some ==> is_settable(block, "Datasheet"@)
        }),
{
    let reference = state.reference;
    let b = block_of(state.content, reference);
    let one = state.set_given("Value"@, request.value);
    let two = one.set_given("Footprint"@, request.footprint);
    let three = two.set_given("Datasheet"@, request.datasheet);
    assert("Value"@ != "Footprint"@ && "Value"@ != "Datasheet"@ && "Footprint"@ != "Datasheet"@) by {
        reveal_strlit("Value");
        reveal_strlit("Footprint");
        reveal_strlit("Datasheet");
        assert("Value"@.len() == 5 && "Footprint"@.len() == 9 && "Datasheet"@.len() == 9);
        assert("Footprint"@[0] != "Datasheet"@[0]);
    }
    lemma_set_given(state, "Value"@, request.value, j);
    lemma_set_given(one, "Footprint"@, request.footprint, j);
    lemma_set_given(two, "Datasheet"@, request.datasheet, j);
    assert(state.properties_set(request) == three);
    let b3 = block_of(three.content, reference);
    assert(request.value is Some ==> is_settable(b3, "Value"@));
    assert(request.footprint is Some ==> is_settable(b3, "Footprint"@));
    assert forall|k: int| 0 <= k < fields.len() implies is_fit_field(b3, #[trigger] fields[k]) by {
        let name = fields[k].name;
        assert(is_fit_field(b, fields[k]));
        assert(name != "Value"@ && name != "Footprint"@ && name != "Datasheet"@);
        assert(fits(b, name));
        assert(fits(block_of(one.content, reference), name));
        assert(fits(block_of(two.content, reference), name));
    }
    assert(reads(b3, "Value"@, request.value)) by {
        if request.value is Some {
            assert(fits(block_of(one.content, reference), "Value"@));
            assert(fits(block_of(two.content, reference), "Value"@));
        }
    }
    assert(reads(b3, "Footprint"@, request.footprint)) by {
        if request.footprint is Some {
            assert(fits(block_of(two.content, reference), "Footprint"@));
        }
    }
}

/// Setting properties and custom fields leaves the symbol's placement: where new
/// fields are anchored can be read once, before the first of them.
pub proof fn law_fields_leave_the_placement(
    state: EditState,
    request: EditRequest,
    fields: Seq<FieldRequest>,
    i: int,
)
    requires
        is_tidy(state.content, state.reference),
        is_fit_request(block_of(state.content, state.reference), request, fields),
        is_placed_first(block_of(state.content, state.reference)),
        0 <= i <= fields.len(),
    ensures
        ({
            let after = fields_set(state.properties_set(request), fields.take(i));
            placement_of(block_of(after.content, state.reference)) == placement_of(
                block_of(state.content, state.reference),
            )
        }),
{
    let j = lemma_instance_index(state.content, state.reference);
    let set = state.properties_set(request);
    let some = fields.take(i);
    let after = fields_set(set, some);
    lemma_properties_set(state, request, fields, j);
    assert forall|k: int| 0 <= k < some.len() implies is_fit_field(
        block_of(set.content, state.reference),
        #[trigger] some[k],
    ) by {
        assert(some[k] == fields[k]);
    }
    assert forall|h: int, k: int| 0 <= h < k < some.len() implies (#[trigger] some[h]).name != (
    #[trigger] some[k]).name by {
        assert(some[h] == fields[h] && some[k] == fields[k]);
    }
    lemma_fields_set(set, some, j);
    lemma_tidy_block(state.content, state.reference);
    lemma_tidy_block(after.content, state.reference);
    lemma_front_holds_placement(
        block_of(state.content, state.reference),
        block_of(after.content, state.reference),
    );
}

/// One request updates everything that it names: afterwards the symbol, found at
/// its place among the symbols, shows the new designator and reads every value
/// that was given, custom fields too, no unit shows the old designator, and
/// nothing failed.
pub proof fn law_a_request_makes_all_its_changes(
    state: EditState,
    request: EditRequest,
    fields: Seq<FieldRequest>,
    j: int,
)
    requires
        is_tidy(state.content, state.reference),
        is_fit_request(block_of(state.content, state.reference), request, fields),
        request.new_reference matches Some(new_ref) ==> is_flat(new_ref@) && is_plain_text(new_ref@)
            && new_ref@ != state.reference,
        0 <= j < symbols(state.content).len(),
        instance_block(state.content, state.reference) == Some(symbols(state.content)[j]),
    ensures
        ({
            let after = state.applied(request, fields);
            let block = node_text(after.content, symbols(after.content)[j]);
            let shown = match request.new_reference {
                Some(new_ref) => new_ref@,
                None => state.reference,
            };
            &&& after.errors == state.errors
            &&& after.reference == shown
            &&& symbols(after.content).len() == symbols(state.content).len()
            &&& shows(block, shown)
            &&& request.new_reference is Some ==> instance_blocks(
                after.content,
                state.reference,
            ).len() == 0
            &&& reads(block, "Value"@, request.value)
            &&& reads(block, "Footprint"@, request.footprint)
            &&& reads(block, "Datasheet"@, request.datasheet)
            &&& forall|k: int|
                0 <= k < fields.len() ==> value_of(block, (#[trigger] fields[k]).name)
                    == fields[k].value
        }),
{
    let reference = state.reference;
    let three = state.properties_set(request);
    let four = fields_set(three, fields);
    let b3 = block_of(three.content, reference);
    lemma_properties_set(state, request, fields, j);
    lemma_fields_set(three, fields, j);
    lemma_first_class_unnamed(b3, fields);
    let b4 = block_of(four.content, reference);
    lemma_reads_on(b3, b4, "Value"@, request.value, fields);
    lemma_reads_on(b3, b4, "Footprint"@, request.footprint, fields);
    lemma_reads_on(b3, b4, "Datasheet"@, request.datasheet, fields);
    lemma_tidy_block(four.content, reference);
    if let Some(new_ref) = request.new_reference {
        law_rename_keeps_the_properties(four, new_ref@, j);
        law_rename_reaches_every_unit(four, new_ref@);
        let after = four.rename(new_ref@);
        let block = node_text(after.content, symbols(after.content)[j]);
        assert(request.value is Some ==> is_settable(b4, "Value"@));
        assert(request.footprint is Some ==> is_settable(b4, "Footprint"@));
        assert(request.datasheet is Some ==> is_settable(b4, "Datasheet"@));
        assert forall|k: int| 0 <= k < fields.len() implies value_of(
            block,
            (#[trigger] fields[k]).name,
        ) == fields[k].value by {
            assert(is_settable(b4, fields[k].name));
        }
    }
}

/// No custom field has the name of a first-class parameter's property.
proof fn lemma_first_class_unnamed(b: Seq<char>, fields: Seq<FieldRequest>)
    requires
        forall|k: int| 0 <= k < fields.len() ==> is_fit_field(b, #[trigger] fields[k]),
    ensures
        !is_named(fields, "Value"@),
        !is_named(fields, "Footprint"@),
        !is_named(fields, "Datasheet"@),
{
    assert forall|name: Seq<char>| #[trigger] reserved(name) implies !is_named(fields, name) by {
        if is_named(fields, name) {
            let k = choose|k: int| 0 <= k < fields.len() && (#[trigger] fields[k]).name == name;
            assert(is_fit_field(b, fields[k]));
        }
    }
    assert(reserved("Value"@));
    assert(reserved("Footprint"@));
    assert(reserved("Datasheet"@));
}

proof fn lemma_reads_on(
    was: Seq<char>,
    block: Seq<char>,
    field: Seq<char>,
    value: Option<String>,
    fields: Seq<FieldRequest>,
)
    requires
        reads(was, field, value),
        value is Some ==> is_settable(was, field),
        !is_named(fields, field),
        forall|other: Seq<char>|
            !is_named(fields, other) && #[trigger] fits(was, other) ==> fits(block, other)
                && value_of(block, other) == value_of(was, other),
        forall|other: Seq<char>|
            !is_named(fields, other) && #[trigger] is_settable(was, other) ==> is_settable(
                block,
                other,
            ),
    ensures
        reads(block, field, value),
        value is Some ==> is_settable(block, field),
{
    if value is Some {
        assert(is_settable(was, field));
        assert(fits(was, field));
    }
}

} // verus!
