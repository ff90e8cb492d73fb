//! What setting a custom field promises.

use crate::component_edit::{
    appended, at_clause, effects_clause, escaped, has_property, hidden_property, property_indent,
    reserved, with_value, EditState,
};
use crate::edit_laws::{
    grown, holds_plainly, lemma_appended, lemma_assoc, lemma_instance_index, lemma_marker,
    lemma_placement_replaced, lemma_property_indent_blank, lemma_regroup, lemma_still_shows,
    lemma_update_is_local, lemma_with_value, shows_plainly, value_of,
};
use crate::scan::{node_text, nodes_in};
use crate::sexp::string_at;
use crate::structure::{
    is_blank, is_flat, is_plain_text, lemma_before_close, lemma_tag_of_node, lemma_tagged,
};
use crate::symbols::{instance_block, property_marker, symbols};
use crate::text::{
    contains_text, first_char, first_match, is_white_space, lemma_first_char, lemma_first_match,
    occurs_at,
};
use vstd::prelude::*;

verus! {

// ─── Reading a field ─────────────────────────────────────────────────────────

/// Whether a symbol block has exactly one property `field`.
pub open spec fn holds_once(b: Seq<char>, field: Seq<char>) -> bool {
    let marker = property_marker(field);
    &&& first_match(b, 0, b.len() as int, marker) is Some
    &&& forall|k: int| #[trigger]
        occurs_at(b, k, marker) ==> first_match(b, 0, b.len() as int, marker) == Some(k)
}

/// The value of the property `field` of a symbol block, with its escapes read.
pub open spec fn field_text(b: Seq<char>, field: Seq<char>) -> Option<Seq<char>> {
    match first_match(b, 0, b.len() as int, property_marker(field)) {
        Some(m) => match string_at(b, m + property_marker(field).len()) {
            Some((text, _)) => Some(text),
            None => None,
        },
        None => None,
    }
}

/// Where quotes stand in a marker.
pub proof fn lemma_marker_quotes(field: Seq<char>)
    requires
        is_plain_text(field),
    ensures
        ({
            let m = property_marker(field);
            let len = m.len() as int;
            &&& len == field.len() + 14
            &&& forall|j: int|
                0 <= j < len && #[trigger] m[j] == '"' ==> j == 10 || j == len - 3 || j == len - 1
            &&& forall|j: int| 0 <= j < 10 ==> #[trigger] m[j] != '"'
            &&& forall|j: int| 0 < j < 11 ==> #[trigger] m[j] != '(' && m[j] != '\n'
            &&& m[0] == '('
            &&& m[1] == 'p'
            &&& m[8] == 'y'
            &&& m[9] == ' '
            &&& m[10] == '"'
            &&& m[len - 3] == '"'
            &&& m[len - 2] == ' '
            &&& m[len - 1] == '"'
        }),
{
    let m = property_marker(field);
    let len = m.len() as int;
    lemma_marker(field);
    reveal_strlit("(property \"");
    let head = m.subrange(0, 11);
    let name = m.subrange(11, 11 + field.len() as int);
    assert forall|j: int| 0 <= j < 11 implies #[trigger] m[j] == "(property \""@[j] by {
        assert(head[j] == m[j]);
    }
    assert forall|j: int| 0 <= j < len && #[trigger] m[j] == '"' implies j == 10 || j == len - 3
        || j == len - 1 by {
        if 11 <= j < 11 + field.len() {
            assert(name[j - 11] == m[j]);
        }
    }
}

/// Two markers of one property do not overlap.
proof fn lemma_markers_apart(s: Seq<char>, k: int, m: int, field: Seq<char>)
    requires
        is_plain_text(field),
        occurs_at(s, k, property_marker(field)),
        occurs_at(s, m, property_marker(field)),
        k < m,
    ensures
        k + property_marker(field).len() <= m,
{
    let p = property_marker(field);
    let len = p.len() as int;
    lemma_marker_quotes(field);
    if m < k + len {
        let d = m - k;
        assert forall|j: int| 0 <= j < len implies s[k + j] == #[trigger] p[j] && s[m + j]
            == p[j] by {
            assert(s.subrange(k, k + len)[j] == s[k + j]);
            assert(s.subrange(m, m + len)[j] == s[m + j]);
        }
        // The later marker opens in the earlier one's name.
        assert(s[k + d] == p[d]);
        assert(s[m + 0] == p[0]);
        assert(d >= 11);
        assert(d < len - 3);
        // Its first quote is the one that closes the name.
        assert(s[m + 10] == p[10]);
        if d + 10 < len {
            assert(s[k + (d + 10)] == p[d + 10]);
        }
        assert(s[k + (len - 3)] == p[len - 3]);
        if d + 10 > len - 3 {
            assert(s[m + (len - 3 - d)] == p[len - 3 - d]);
        }
        assert(d + 10 == len - 3);
        assert(s[k + (len - 1)] == p[len - 1]);
        assert(s[m + 12] == p[12]);
    }
}

// ─── A field that was added ──────────────────────────────────────────────────

/// Text without quotes.
pub open spec fn quote_free(u: Seq<char>) -> bool {
    forall|k: int| 0 <= k < u.len() ==> #[trigger] u[k] != '"'
}

proof fn lemma_quote_free(a: Seq<char>, b: Seq<char>)
    requires
        quote_free(a),
        quote_free(b),
    ensures
        quote_free(a + b),
{
    assert forall|k: int| 0 <= k < (a + b).len() implies #[trigger] (a + b)[k] != '"' by {
        if k < a.len() {
            assert((a + b)[k] == a[k]);
        } else {
            assert((a + b)[k] == b[k - a.len()]);
        }
    }
}

/// In escaped text a quote stands behind a backslash.
proof fn lemma_escaped_quotes(value: Seq<char>)
    ensures
        forall|k: int|
            0 <= k < escaped(value).len() && #[trigger] escaped(value)[k] == '"' ==> k > 0
                && escaped(value)[k - 1] == '\\',
    decreases value.len(),
{
    if value.len() > 0 {
        let front = escaped(value.drop_last());
        let e = escaped(value);
        lemma_escaped_quotes(value.drop_last());
        assert forall|k: int| 0 <= k < e.len() && #[trigger] e[k] == '"' implies k > 0 && e[k - 1]
            == '\\' by {
            if k < front.len() {
                assert(front[k] == e[k]);
            }
        }
    }
}

pub proof fn lemma_escaped_plain(value: Seq<char>)
    requires
        is_plain_text(value),
    ensures
        escaped(value) == value,
    decreases value.len(),
{
    if value.len() > 0 {
        let front = value.drop_last();
        assert forall|k: int| 0 <= k < front.len() implies #[trigger] front[k] != '"' && front[k]
            != '\\' by {
            assert(front[k] == value[k]);
        }
        lemma_escaped_plain(front);
        assert(value[value.len() - 1] != '"' && value[value.len() - 1] != '\\');
        assert(front.push(value.last()) =~= value);
    } else {
        assert(escaped(value) =~= value);
    }
}

spec fn escaped_char(c: char) -> Seq<char> {
    if c == '\\' || c == '"' {
        seq!['\\', c]
    } else {
        seq![c]
    }
}

proof fn lemma_escaped_front(value: Seq<char>)
    requires
        value.len() > 0,
    ensures
        escaped(value) == escaped_char(value[0]) + escaped(value.skip(1)),
    decreases value.len(),
{
    let rest = value.skip(1);
    if value.len() == 1 {
        assert(value.drop_last() =~= Seq::<char>::empty());
        assert(rest =~= Seq::<char>::empty());
        assert(escaped(value) =~= escaped_char(value[0]) + escaped(rest));
    } else {
        let front = value.drop_last();
        lemma_escaped_front(front);
        assert(front.skip(1) =~= rest.drop_last());
        assert(rest.last() == value.last());
        assert(escaped(value) =~= escaped_char(value[0]) + escaped(rest));
    }
}

/// What was escaped is read back as it was.
proof fn lemma_escaped_reads_back(x: Seq<char>, value: Seq<char>, y: Seq<char>)
    requires
        y.len() > 0,
        y[0] == '"',
    ensures
        string_at(x + escaped(value) + y, x.len() as int) matches Some((text, _)) && text == value,
    decreases value.len(),
{
    let s = x + escaped(value) + y;
    let at = x.len() as int;
    if value.len() == 0 {
        assert(s[at] == y[0]);
        assert(value =~= Seq::<char>::empty());
    } else {
        let c = value[0];
        let rest = value.skip(1);
        let x2 = x + escaped_char(c);
        lemma_escaped_front(value);
        lemma_escaped_reads_back(x2, rest, y);
        assert(s =~= x2 + escaped(rest) + y);
        assert(s[at] == escaped_char(c)[0]);
        assert(seq![c] + rest =~= value);
        if c == '\\' || c == '"' {
            assert(s[at + 1] == c);
        }
    }
}

/// What follows the value of an added property.
#[verifier::opaque]
pub open spec fn closing(margin: Seq<char>, anchor: (Seq<char>, Seq<char>)) -> Seq<char> {
    "\"\n"@ + margin + "\t"@ + at_clause(anchor) + "\n"@ + margin + "\t(hide yes)\n"@ + margin
        + "\t"@ + effects_clause(margin) + "\n"@ + margin + ")"@
}

proof fn lemma_hidden_property(
    margin: Seq<char>,
    name: Seq<char>,
    value: Seq<char>,
    anchor: (Seq<char>, Seq<char>),
)
    ensures
        hidden_property(margin, name, value, anchor) == "\n"@ + margin + (property_marker(name) + (
        escaped(value) + closing(margin, anchor))),
{
    reveal(closing);
    let e = escaped(value);
    let newline = "\n"@;
    let tab = "\t"@;
    let at = at_clause(anchor);
    let hide = "\t(hide yes)\n"@;
    let effects = effects_clause(margin);
    let q = "\"\n"@;
    lemma_regroup(
        property_marker(name),
        e,
        q,
        margin,
        tab,
        at,
        newline,
        hide,
        effects,
        ")"@,
    );
    let r1 = q + margin;
    let r2 = r1 + tab;
    let r3 = r2 + at;
    let r4 = r3 + newline;
    let r5 = r4 + margin;
    let r6 = r5 + hide;
    let r7 = r6 + margin;
    let r8 = r7 + tab;
    let r9 = r8 + effects;
    let r10 = r9 + newline;
    let r11 = r10 + margin;
    lemma_assoc(e, q, margin);
    lemma_assoc(e, r1, tab);
    lemma_assoc(e, r2, at);
    lemma_assoc(e, r3, newline);
    lemma_assoc(e, r4, margin);
    lemma_assoc(e, r5, hide);
    lemma_assoc(e, r6, margin);
    lemma_assoc(e, r7, tab);
    lemma_assoc(e, r8, effects);
    lemma_assoc(e, r9, newline);
    lemma_assoc(e, r10, margin);
    lemma_assoc(e, r11, ")"@);
}

/// Whether `u` starts with its only quote.
pub open spec fn opens_quoted(u: Seq<char>) -> bool {
    u.len() > 0 && u[0] == '"' && forall|k: int| 0 < k < u.len() ==> #[trigger] u[k] != '"'
}

proof fn lemma_opens_quoted(a: Seq<char>, b: Seq<char>)
    requires
        opens_quoted(a),
        quote_free(b),
    ensures
        opens_quoted(a + b),
{
    assert forall|k: int| 0 < k < (a + b).len() implies #[trigger] (a + b)[k] != '"' by {
        if k < a.len() {
            assert((a + b)[k] == a[k]);
        } else {
            assert((a + b)[k] == b[k - a.len()]);
        }
    }
}

proof fn lemma_blank_is_quote_free(u: Seq<char>)
    requires
        is_blank(u),
    ensures
        quote_free(u),
{
    assert forall|k: int| 0 <= k < u.len() implies #[trigger] u[k] != '"' by {
        assert(is_white_space(u[k]));
    }
}

/// Behind the value of an added property there is no further quote.
pub proof fn lemma_closing(margin: Seq<char>, anchor: (Seq<char>, Seq<char>))
    requires
        is_blank(margin),
        is_flat(anchor.0),
        is_flat(anchor.1),
    ensures
        opens_quoted(closing(margin, anchor)),
{
    reveal(closing);
    let newline = "\n"@;
    let tab = "\t"@;
    let q = "\"\n"@;
    let hide = "\t(hide yes)\n"@;
    lemma_blank_is_quote_free(margin);
    assert(quote_free(newline) && quote_free(tab) && quote_free(hide) && quote_free(")"@)) by {
        reveal_strlit("\n");
        reveal_strlit("\t");
        reveal_strlit("\t(hide yes)\n");
        reveal_strlit(")");
    }
    assert(opens_quoted(q)) by {
        reveal_strlit("\"\n");
    }
    let at = at_clause(anchor);
    assert(quote_free(at)) by {
        reveal_strlit("(at ");
        reveal_strlit(" ");
        reveal_strlit(" 0)");
        lemma_quote_free("(at "@, anchor.0);
        lemma_quote_free("(at "@ + anchor.0, " "@);
        lemma_quote_free("(at "@ + anchor.0 + " "@, anchor.1);
        lemma_quote_free("(at "@ + anchor.0 + " "@ + anchor.1, " 0)"@);
    }
    let effects = effects_clause(margin);
    lemma_effects_quote_free(margin);
    let r1 = q + margin;
    let r2 = r1 + tab;
    let r3 = r2 + at;
    let r4 = r3 + newline;
    let r5 = r4 + margin;
    let r6 = r5 + hide;
    let r7 = r6 + margin;
    let r8 = r7 + tab;
    let r9 = r8 + effects;
    let r10 = r9 + newline;
    let r11 = r10 + margin;
    lemma_opens_quoted(q, margin);
    lemma_opens_quoted(r1, tab);
    lemma_opens_quoted(r2, at);
    lemma_opens_quoted(r3, newline);
    lemma_opens_quoted(r4, margin);
    lemma_opens_quoted(r5, hide);
    lemma_opens_quoted(r6, margin);
    lemma_opens_quoted(r7, tab);
    lemma_opens_quoted(r8, effects);
    lemma_opens_quoted(r9, newline);
    lemma_opens_quoted(r10, margin);
    lemma_opens_quoted(r11, ")"@);
}

proof fn lemma_effects_quote_free(margin: Seq<char>)
    requires
        quote_free(margin),
    ensures
        quote_free(effects_clause(margin)),
{
    let a = "(effects\n"@;
    let b = "\t\t(font\n"@;
    let c = "\t\t\t(size 1.27 1.27)\n"@;
    let d = "\t\t)\n"@;
    let e = "\t)"@;
    assert(quote_free(a) && quote_free(b) && quote_free(c) && quote_free(d) && quote_free(e)) by {
        reveal_strlit("(effects\n");
        reveal_strlit("\t\t(font\n");
        reveal_strlit("\t\t\t(size 1.27 1.27)\n");
        reveal_strlit("\t\t)\n");
        reveal_strlit("\t)");
    }
    lemma_quote_free(a, margin);
    lemma_quote_free(a + margin, b);
    lemma_quote_free(a + margin + b, margin);
    lemma_quote_free(a + margin + b + margin, c);
    lemma_quote_free(a + margin + b + margin + c, margin);
    lemma_quote_free(a + margin + b + margin + c + margin, d);
    lemma_quote_free(a + margin + b + margin + c + margin + d, margin);
    lemma_quote_free(a + margin + b + margin + c + margin + d + margin, e);
}

/// A block that holds no property `name`, once a marker, an escaped value and
/// text with no quote but its first were put behind `y` and white space: it has
/// that marker and no other.
proof fn lemma_one_marker(
    y: Seq<char>,
    gap: Seq<char>,
    name: Seq<char>,
    value: Seq<char>,
    end: Seq<char>,
)
    requires
        is_plain_text(name),
        !contains_text(y, property_marker(name)),
        gap.len() > 0,
        gap[0] == '\n',
        is_blank(gap),
        opens_quoted(end),
    ensures
        ({
            let m = property_marker(name);
            let c = y + gap + m + escaped(value) + end;
            forall|k: int| #[trigger] occurs_at(c, k, m) <==> k == y.len() + gap.len()
        }),
{
    let m = property_marker(name);
    let e = escaped(value);
    let c = y + gap + m + e + end;
    let len = m.len() as int;
    let z = y.len() as int;
    let a = z + gap.len() as int;
    let quote = a + len + e.len() as int;
    lemma_marker_quotes(name);
    lemma_escaped_quotes(value);
    assert(c.subrange(a, a + len) =~= m);
    assert(occurs_at(c, a, m));
    assert forall|k: int| #[trigger] occurs_at(c, k, m) implies k == a by {
        assert forall|j: int| 0 <= j < len implies c[k + j] == #[trigger] m[j] by {
            assert(c.subrange(k, k + len)[j] == c[k + j]);
        }
        assert(c[k + (len - 1)] == m[len - 1]);
        // No quote stands behind the value.
        if k + len - 1 > quote {
            assert(c[k + len - 1] == end[k + len - 1 - quote]);
            assert(false);
        }
        assert(c[k + 0] == m[0]);
        assert(c[k + 9] == m[9]);
        assert(c[k + 10] == m[10]);
        if k + len <= z {
            assert(y.subrange(k, k + len) =~= m);
            assert(occurs_at(y, k, m));
            assert(false);
        } else if k < z {
            assert(c =~= y + gap + m + (e + end));
            lemma_no_straddle(y, gap, m, e + end, name, k, c);
            assert(false);
        } else if k < a {
            assert(c[k] == gap[k - z]);
            assert(is_white_space(gap[k - z]));
            assert(false);
        } else if a < k < a + len {
            lemma_markers_apart(c, a, k, name);
            assert(false);
        } else if k >= a + len {
            let i = k + 10;
            if i < quote {
                let o = i - a - len;
                assert(c[i] == e[o]);
                assert(c[i - 1] == e[o - 1]);
                assert(false);
            }
            assert(false);
        }
    }
}

/// No marker reaches from `y` over white space into the marker behind it.
proof fn lemma_no_straddle(
    y: Seq<char>,
    gap: Seq<char>,
    m: Seq<char>,
    rest: Seq<char>,
    name: Seq<char>,
    k: int,
    c: Seq<char>,
)
    requires
        is_plain_text(name),
        m == property_marker(name),
        c == y + gap + m + rest,
        gap.len() > 0,
        gap[0] == '\n',
        is_blank(gap),
        occurs_at(c, k, m),
        k < y.len(),
    ensures
        k + m.len() <= y.len(),
{
    let len = m.len() as int;
    let z = y.len() as int;
    let a = z + gap.len() as int;
    lemma_marker_quotes(name);
    assert(c.subrange(a, a + len) =~= m);
    assert(occurs_at(c, a, m));
    lemma_markers_apart(c, k, a, name);
    let last = k + len - 1;
    assert(c.subrange(k, k + len)[len - 1] == c[last]);
    if last >= z {
        // It would end in the white space, and it ends with a quote.
        assert(c[last] == gap[last - z]);
        assert(is_white_space(gap[last - z]));
    }
}

proof fn lemma_grown_text(b: Seq<char>, gap: Seq<char>, m: Seq<char>, e: Seq<char>, end: Seq<char>)
    requires
        b.len() > 0,
    ensures
        grown(b, b.len() - 1, gap + (m + (e + end))) == b.drop_last() + gap + m + e + (end + seq![
            b.last(),
        ]),
{
    assert(b.take(b.len() - 1) =~= b.drop_last());
    assert(b.skip(b.len() - 1) =~= seq![b.last()]);
    assert(grown(b, b.len() - 1, gap + (m + (e + end))) =~= b.drop_last() + gap + m + e + (end
        + seq![b.last()]));
}

proof fn lemma_part_holds_none(b: Seq<char>, m: Seq<char>)
    requires
        b.len() > 0,
        !contains_text(b, m),
    ensures
        !contains_text(b.drop_last(), m),
{
    let y = b.drop_last();
    if contains_text(y, m) {
        let k = choose|k: int| #[trigger] occurs_at(y, k, m);
        assert(b.subrange(k, k + m.len()) =~= y.subrange(k, k + m.len()));
        assert(occurs_at(b, k, m));
    }
}

/// The block of a symbol that a field was added to: the field stands in it once,
/// and its value reads back.
pub proof fn lemma_added_field(
    b: Seq<char>,
    name: Seq<char>,
    value: Seq<char>,
    anchor: (Seq<char>, Seq<char>),
)
    requires
        b.len() > 0,
        b.last() == ')',
        is_plain_text(name),
        is_flat(anchor.0),
        is_flat(anchor.1),
        !contains_text(b, property_marker(name)),
    ensures
        ({
            let v = hidden_property(property_indent(b), name, value, anchor);
            let c = grown(b, b.len() - 1, v);
            let at = b.len() + property_indent(b).len() + property_marker(name).len();
            &&& c == b.drop_last() + ("\n"@ + property_indent(b)) + property_marker(name) + escaped(
                value,
            ) + (closing(property_indent(b), anchor) + seq![b.last()])
            &&& holds_once(c, name)
            &&& first_match(c, 0, c.len() as int, property_marker(name)) == Some(
                at - property_marker(name).len(),
            )
            &&& field_text(c, name) == Some(value)
        }),
{
    let margin = property_indent(b);
    let m = property_marker(name);
    let e = escaped(value);
    let y = b.drop_last();
    let gap = "\n"@ + margin;
    let end = closing(margin, anchor);
    lemma_property_indent_blank(b);
    lemma_hidden_property(margin, name, value, anchor);
    lemma_grown_text(b, gap, m, e, end);
    lemma_closing(margin, anchor);
    assert(gap.len() == margin.len() + 1 && gap[0] == '\n' && is_blank(gap)) by {
        reveal_strlit("\n");
        assert forall|k: int| 0 <= k < gap.len() implies is_white_space(#[trigger] gap[k]) by {
            if k > 0 {
                assert(gap[k] == margin[k - 1]);
            }
        }
    }
    lemma_part_holds_none(b, m);
    lemma_added_text(y, gap, name, value, end, b.last());
}

/// A property that ends a text has its marker there alone, and its value is read
/// up to its quote.
proof fn lemma_added_text(
    y: Seq<char>,
    gap: Seq<char>,
    name: Seq<char>,
    value: Seq<char>,
    end: Seq<char>,
    last: char,
)
    requires
        is_plain_text(name),
        !contains_text(y, property_marker(name)),
        gap.len() > 0,
        gap[0] == '\n',
        is_blank(gap),
        opens_quoted(end),
        last == ')',
    ensures
        ({
            let m = property_marker(name);
            let c = y + gap + m + escaped(value) + (end + seq![last]);
            &&& holds_once(c, name)
            &&& first_match(c, 0, c.len() as int, m) == Some((y.len() + gap.len()) as int)
            &&& field_text(c, name) == Some(value)
        }),
{
    let m = property_marker(name);
    let c = y + gap + m + escaped(value) + (end + seq![last]);
    let at = (y.len() + gap.len()) as int;
    lemma_marker_quotes(name);
    assert(quote_free(seq![last]));
    lemma_opens_quoted(end, seq![last]);
    lemma_one_marker(y, gap, name, value, end + seq![last]);
    lemma_first_match(c, 0, c.len() as int, m);
    assert(occurs_at(c, at, m));
    lemma_escaped_reads_back(y + gap + m, value, end + seq![last]);
}

/// A property that was added is found in the symbol afterwards. Where there was
/// none of that name before, there is exactly one now, and its value reads back
/// as it was given, whatever needed an escape.
pub proof fn law_appended_property_is_there(
    s: Seq<char>,
    reference: Seq<char>,
    name: Seq<char>,
    value: Seq<char>,
    anchor: (Seq<char>, Seq<char>),
)
    requires
        instance_block(s, reference) is Some,
        is_plain_text(name),
        is_flat(anchor.0),
        is_flat(anchor.1),
    ensures
        appended(s, reference, name, value, Some(anchor)) matches Ok(t) && {
            let after = node_text(t, instance_block(t, reference)->0);
            &&& has_property(t, reference, name)
            &&& symbols(t).len() == symbols(s).len()
            &&& !has_property(s, reference, name) ==> holds_once(after, name) && field_text(
                after,
                name,
            ) == Some(value)
        },
{
    let b = node_text(s, instance_block(s, reference)->0);
    lemma_appended(s, reference, name, value, anchor);
    lemma_before_close(b);
    if !has_property(s, reference, name) {
        lemma_added_field(b, name, value, anchor);
    }
}

// ─── A field that is set again ───────────────────────────────────────────────

/// Setting a value that stands between `x` and `y`.
proof fn lemma_value_between(
    x: Seq<char>,
    first: Seq<char>,
    second: Seq<char>,
    y: Seq<char>,
    name: Seq<char>,
)
    requires
        is_plain_text(first),
        y.len() > 0,
        y[0] == '"',
        first_match(x + first + y, 0, (x + first + y).len() as int, property_marker(name)) == Some(
            x.len() - property_marker(name).len(),
        ),
    ensures
        value_of(x + first + y, name) == Some(first),
        with_value(x + first + y, name, second) == x + second + y,
{
    let c = x + first + y;
    let at = x.len() as int;
    let end = at + first.len() as int;
    lemma_first_char(c, at, c.len() as int, '"');
    assert(c[end] == y[0]);
    assert forall|k: int| at <= k < end implies c[k] != '"' by {
        assert(c[k] == first[k - at]);
    }
    assert(first_char(c, at, c.len() as int, '"') == Some(end));
    assert(c.subrange(at, end) =~= first);
    assert(c.take(at) =~= x);
    assert(c.skip(end) =~= y);
}

/// Setting another value in an added property is adding it with that value.
pub proof fn lemma_added_field_set(
    b: Seq<char>,
    name: Seq<char>,
    first: Seq<char>,
    second: Seq<char>,
    anchor: (Seq<char>, Seq<char>),
)
    requires
        b.len() > 0,
        b.last() == ')',
        is_plain_text(name),
        is_plain_text(first),
        is_plain_text(second),
        is_flat(anchor.0),
        is_flat(anchor.1),
        !contains_text(b, property_marker(name)),
    ensures
        ({
            let margin = property_indent(b);
            let p = b.len() - 1;
            let c = grown(b, p, hidden_property(margin, name, first, anchor));
            let d = grown(b, p, hidden_property(margin, name, second, anchor));
            value_of(c, name) == Some(first) && with_value(c, name, second) == d
        }),
{
    let margin = property_indent(b);
    let x = b.drop_last() + ("\n"@ + margin) + property_marker(name);
    let y = closing(margin, anchor) + seq![b.last()];
    lemma_added_field(b, name, first, anchor);
    lemma_added_field(b, name, second, anchor);
    lemma_escaped_plain(first);
    lemma_escaped_plain(second);
    lemma_property_indent_blank(b);
    lemma_closing(margin, anchor);
    assert("\n"@.len() == 1) by {
        reveal_strlit("\n");
    }
    lemma_value_between(x, first, second, y, name);
}

/// A custom field that is set twice is updated, not duplicated: the symbol
/// carries exactly one property of that name, with the second value.
pub proof fn law_a_field_set_twice_is_there_once(
    state: EditState,
    name: Seq<char>,
    first: Seq<char>,
    second: Seq<char>,
    anchor: (Seq<char>, Seq<char>),
    later: Option<(Seq<char>, Seq<char>)>,
)
    requires
        instance_block(state.content, state.reference) is Some,
        !has_property(state.content, state.reference, name),
        !reserved(name),
        is_plain_text(name),
        is_plain_text(first),
        is_plain_text(second),
        is_flat(anchor.0),
        is_flat(anchor.1),
    ensures
        ({
            let once = state.set_field(name, Some(first), Some(anchor));
            let twice = once.set_field(name, Some(second), later);
            let block = instance_block(twice.content, state.reference);
            &&& twice.errors == state.errors
            &&& twice.changed.len() == state.changed.len() + 2
            &&& block is Some
            &&& holds_once(node_text(twice.content, block->0), name)
            &&& value_of(node_text(twice.content, block->0), name) == Some(second)
            &&& field_text(node_text(twice.content, block->0), name) == Some(second)
            &&& symbols(twice.content).len() == symbols(state.content).len()
        }),
{
    let s = state.content;
    let reference = state.reference;
    let b = node_text(s, instance_block(s, reference)->0);
    let margin = property_indent(b);
    let d = grown(b, b.len() - 1, hidden_property(margin, name, second, anchor));
    let once = state.set_field(name, Some(first), Some(anchor));
    lemma_appended(s, reference, name, first, anchor);
    lemma_appended(s, reference, name, second, anchor);
    lemma_before_close(b);
    lemma_added_field_set(b, name, first, second, anchor);
    lemma_added_field(b, name, second, anchor);
    lemma_update_is_local(once.content, reference, name, second);
    lemma_placement_replaced(once.content, reference, d);
    lemma_added_value(b, name, second, anchor);
}

proof fn lemma_added_value(
    b: Seq<char>,
    name: Seq<char>,
    value: Seq<char>,
    anchor: (Seq<char>, Seq<char>),
)
    requires
        b.len() > 0,
        b.last() == ')',
        is_plain_text(name),
        is_plain_text(value),
        is_flat(anchor.0),
        is_flat(anchor.1),
        !contains_text(b, property_marker(name)),
    ensures
        value_of(
            grown(b, b.len() - 1, hidden_property(property_indent(b), name, value, anchor)),
            name,
        ) == Some(value),
{
    lemma_added_field_set(b, name, value, value, anchor);
}

/// Whether `u` ends with `tail`.
pub open spec fn ends_with(u: Seq<char>, tail: Seq<char>) -> bool {
    u.len() >= tail.len() && u.skip(u.len() - tail.len()) == tail
}

/// Setting a value leaves exactly one property where there was one.
proof fn lemma_set_once(b: Seq<char>, field: Seq<char>, new_val: Seq<char>)
    requires
        is_plain_text(field),
        holds_once(b, field),
        value_of(b, field) is Some,
        is_plain_text(new_val),
        !ends_with(new_val, "(property "@),
    ensures
        holds_once(with_value(b, field, new_val), field),
{
    let p = property_marker(field);
    let plen = p.len() as int;
    let len = b.len() as int;
    let c = with_value(b, field, new_val);
    lemma_marker_quotes(field);
    lemma_first_match(b, 0, len, p);
    let m = first_match(b, 0, len, p)->0;
    let at = m + plen;
    lemma_first_char(b, at, len, '"');
    let end = first_char(b, at, len, '"')->0;
    let close = at + new_val.len() as int;
    let d = close - end;
    assert(c.subrange(m, at) =~= b.subrange(m, at));
    assert(occurs_at(c, m, p));
    assert forall|k: int| #[trigger] occurs_at(c, k, p) implies k == m by {
        if k < m {
            lemma_markers_apart(c, k, m, field);
            assert(b.subrange(k, k + plen) =~= c.subrange(k, k + plen));
            assert(occurs_at(b, k, p));
        } else if k > m {
            lemma_markers_apart(c, m, k, field);
            let here = c.subrange(k, k + plen);
            if k < close {
                // Its first quote is the one that closes the value.
                assert(here[10] == c[k + 10]);
                if k + 10 < close {
                    assert(c[k + 10] == new_val[k + 10 - at]);
                    assert(false);
                }
                assert(c[close] == b[end]);
                if k + 10 > close {
                    assert(here[close - k] == c[close]);
                    assert(false);
                }
                reveal_strlit("(property \"");
                reveal_strlit("(property ");
                lemma_marker(field);
                assert(new_val.skip(new_val.len() - 10) =~= "(property "@) by {
                    assert forall|j: int| 0 <= j < 10 implies new_val[new_val.len() - 10 + j]
                        == "(property "@[j] by {
                        assert(here[j] == c[k + j]);
                        assert(p.subrange(0, 11)[j] == p[j]);
                    }
                }
                assert(false);
            } else {
                assert(b.subrange(k - d, k - d + plen) =~= here);
                assert(occurs_at(b, k - d, p));
                assert(false);
            }
        }
    }
    lemma_first_match(c, 0, c.len() as int, p);
}

/// A custom field that a symbol carries once is updated in place: it carries it
/// once afterwards, with the new value.
pub proof fn law_an_existing_field_is_updated_in_place(
    state: EditState,
    name: Seq<char>,
    value: Seq<char>,
    anchor: Option<(Seq<char>, Seq<char>)>,
)
    requires
        instance_block(state.content, state.reference) is Some,
        ({
            let b = node_text(
                state.content,
                instance_block(state.content, state.reference)->0,
            );
            shows_plainly(b, state.reference) && holds_plainly(b, name) && holds_once(b, name)
        }),
        !reserved(name),
        is_plain_text(value),
        !ends_with(value, "(property "@),
    ensures
        ({
            let after = state.set_field(name, Some(value), anchor);
            let block = instance_block(after.content, state.reference);
            &&& after.errors == state.errors
            &&& after.changed.len() == state.changed.len() + 1
            &&& block is Some
            &&& holds_once(node_text(after.content, block->0), name)
            &&& value_of(node_text(after.content, block->0), name) == Some(value)
        }),
{
    let s = state.content;
    let reference = state.reference;
    let n = instance_block(s, reference)->0;
    let b = node_text(s, n);
    let j = lemma_instance_index(s, reference);
    let p = property_marker(name);
    lemma_marker(name);
    lemma_first_match(b, 0, b.len() as int, p);
    assert(occurs_at(b, first_match(b, 0, b.len() as int, p)->0, p));
    lemma_tag_of_node(s, n);
    lemma_tagged(s, nodes_in(s, 0, s.len() as int, 1), "symbol"@);
    lemma_update_is_local(s, reference, name, value);
    lemma_with_value(b, name, value);
    lemma_still_shows(b, reference, name, value);
    lemma_placement_replaced(s, reference, with_value(b, name, value));
    lemma_set_once(b, name, value);
}

} // verus!
