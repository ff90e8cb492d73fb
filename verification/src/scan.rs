//! Locating `(tag …)` nodes in s-expression text without parsing it.
//!
//! The scanner tracks parenthesis depth and skips quoted strings, so it does
//! not care how a file is indented.

use crate::text::{is_white_space, matches_at, slice_text, to_chars, whitespace};
use vstd::prelude::*;

verus! {

// ─── The scanner's state ─────────────────────────────────────────────────────

/// What the scanner knows between two characters: how many lists are open, and
/// whether it stands in a quoted string, right behind a backslash.
pub ghost struct Lex {
    pub depth: nat,
    pub quoted: bool,
    pub escaped: bool,
}

/// Outside every list and every string.
pub open spec fn outside() -> Lex {
    Lex { depth: 0, quoted: false, escaped: false }
}

/// The state behind `c`, from the state before it.
pub open spec fn step(l: Lex, c: char) -> Lex {
    if l.quoted {
        if l.escaped {
            Lex { escaped: false, ..l }
        } else if c == '\\' {
            Lex { escaped: true, ..l }
        } else if c == '"' {
            Lex { quoted: false, ..l }
        } else {
            l
        }
    } else if c == '"' {
        Lex { quoted: true, ..l }
    } else if c == '(' {
        Lex { depth: l.depth + 1, ..l }
    } else if c == ')' && l.depth > 0 {
        Lex { depth: (l.depth - 1) as nat, ..l }
    } else {
        l
    }
}

/// The state at `to`, from the state `l` at `from`.
pub open spec fn run(l: Lex, s: Seq<char>, from: int, to: int) -> Lex
    decreases to - from,
{
    if to <= from {
        l
    } else {
        step(run(l, s, from, to - 1), s[to - 1])
    }
}

// ─── Closing parentheses ─────────────────────────────────────────────────────

/// Whether `c`, read in state `l`, closes the outermost open list.
pub open spec fn closes(l: Lex, c: char) -> bool {
    !l.quoted && c == ')' && l.depth == 1
}

/// The first position from `i` on at which the outermost list closes, where `l`
/// is the state at `i`.
pub open spec fn close_from(s: Seq<char>, i: int, l: Lex) -> Option<int>
    decreases s.len() - i,
{
    if i < 0 || i >= s.len() {
        None
    } else if closes(l, s[i]) {
        Some(i)
    } else {
        close_from(s, i + 1, step(l, s[i]))
    }
}

/// Where the list that opens at `open` closes, if it does.
pub open spec fn close_position(s: Seq<char>, open: int) -> Option<int> {
    close_from(s, open, outside())
}

/// Whether scanning from `i` in state `l` meets no `)` with nothing left to
/// close, up to where the outermost list closes.
pub open spec fn opens_first(s: Seq<char>, i: int, l: Lex) -> bool
    decreases s.len() - i,
{
    if i < 0 || i >= s.len() || closes(l, s[i]) {
        true
    } else if !l.quoted && s[i] == ')' && l.depth == 0 {
        false
    } else {
        opens_first(s, i + 1, step(l, s[i]))
    }
}

// ─── Nodes ───────────────────────────────────────────────────────────────────

/// A list located in text: the positions of its `(` and of its `)`.
pub ghost struct Node {
    pub start: int,
    pub end: int,
}

/// The text of a node, parentheses included.
pub open spec fn node_text(s: Seq<char>, n: Node) -> Seq<char> {
    s.subrange(n.start, n.end + 1)
}

/// Whether `c`, read in state `l`, opens a list at `depth`.
pub open spec fn opens(l: Lex, c: char, depth: nat) -> bool {
    !l.quoted && c == '(' && l.depth == depth
}

/// The lists that open in `i..hi` at `depth` and are closed, in order, where `l`
/// is the state at `i`.
pub open spec fn nodes_from(s: Seq<char>, i: int, hi: int, l: Lex, depth: nat) -> Seq<Node>
    decreases hi - i,
{
    if i >= hi {
        Seq::empty()
    } else {
        let rest = nodes_from(s, i + 1, hi, step(l, s[i]), depth);
        match close_position(s, i) {
            Some(end) if opens(l, s[i], depth) => seq![Node { start: i, end }] + rest,
            _ => rest,
        }
    }
}

/// The first position from `from` on that ends a tag: white space or a
/// parenthesis.
pub open spec fn tag_end(s: Seq<char>, from: int) -> Option<int>
    decreases s.len() - from,
{
    if from < 0 || from >= s.len() {
        None
    } else if is_white_space(s[from]) || s[from] == '(' || s[from] == ')' {
        Some(from)
    } else {
        tag_end(s, from + 1)
    }
}

/// The tag of the list that opens at `open`: what stands behind its `(`.
pub open spec fn tag_at(s: Seq<char>, open: int) -> Seq<char> {
    match tag_end(s, open + 1) {
        Some(end) => s.subrange(open + 1, end),
        None => Seq::empty(),
    }
}

/// Those of `nodes` whose tag is `tag`.
pub open spec fn tagged(s: Seq<char>, nodes: Seq<Node>, tag: Seq<char>) -> Seq<Node>
    decreases nodes.len(),
{
    if nodes.len() == 0 {
        Seq::empty()
    } else {
        let rest = tagged(s, nodes.skip(1), tag);
        if tag_at(s, nodes[0].start) == tag {
            seq![nodes[0]] + rest
        } else {
            rest
        }
    }
}

/// The closed lists that open at `depth` in `lo..hi`, counted from outside at
/// `lo`.
pub open spec fn nodes_in(s: Seq<char>, lo: int, hi: int, depth: nat) -> Seq<Node> {
    nodes_from(s, lo, hi, outside(), depth)
}

/// The direct children of a node.
pub open spec fn children(s: Seq<char>, n: Node) -> Seq<Node> {
    nodes_in(s, n.start, n.end + 1, 1)
}

// ─── Executable scanners ─────────────────────────────────────────────────────

/// A `(tag …)` node located in the source text.
#[derive(Debug, Clone, Copy)]
pub struct Span {
    pub start: usize,
    pub end: usize,
}

impl View for Span {
    type V = Node;

    open spec fn view(&self) -> Node {
        Node { start: self.start as int, end: self.end as int }
    }
}

/// The nodes that spans stand for.
pub open spec fn span_nodes(spans: Seq<Span>) -> Seq<Node> {
    spans.map_values(|n: Span| n@)
}

/// The state behind `c`, from the state before it, as [`step`] says.
pub fn advance(c: char, depth: usize, quoted: bool, escaped: bool) -> (res: (usize, bool, bool))
    requires
        depth < usize::MAX,
    ensures
        ({
            let l = step(Lex { depth: depth as nat, quoted, escaped }, c);
            res.0 == l.depth && res.1 == l.quoted && res.2 == l.escaped
        }),
        res.0 <= depth + 1,
{
    if quoted {
        if escaped {
            (depth, true, false)
        } else if c == '\\' {
            (depth, true, true)
        } else if c == '"' {
            (depth, false, escaped)
        } else {
            (depth, true, escaped)
        }
    } else if c == '"' {
        (depth, true, escaped)
    } else if c == '(' {
        (depth + 1, quoted, escaped)
    } else if c == ')' && depth > 0 {
        (depth - 1, quoted, escaped)
    } else {
        (depth, quoted, escaped)
    }
}

/// Position of the `)` closing the block that opens at `open`, or `None` if the
/// text is unbalanced. Quoted strings, which routinely contain parentheses in
/// descriptions and datasheet URLs, are skipped.
pub fn close_of(content: &[char], open: usize) -> (res: Option<usize>)
    requires
        opens_first(content@, open as int, outside()),
    ensures
        match res {
            Some(end) => close_position(content@, open as int) == Some(end as int) && open <= end
                < content@.len(),
            None => close_position(content@, open as int) is None,
        },
{
    let len = content.len();
    let mut depth: usize = 0;
    let mut quoted = false;
    let mut escaped = false;
    let mut i: usize = open;
    while i < len
        invariant
            len == content@.len(),
            open <= i,
            depth <= i - open,
            close_position(content@, open as int) == close_from(
                content@,
                i as int,
                Lex { depth: depth as nat, quoted, escaped },
            ),
        decreases len - i,
    {
        let c = content[i];
        if !quoted && c == ')' && depth == 1 {
            return Some(i);
        }
        let (d, q, e) = advance(c, depth, quoted, escaped);
        depth = d;
        quoted = q;
        escaped = e;
        i = i + 1;
    }
    None
}

/// Where the tag that starts at `from` ends.
fn find_tag_end(content: &[char], from: usize) -> (res: Option<usize>)
    ensures
        match res {
            Some(end) => tag_end(content@, from as int) == Some(end as int) && from <= end
                < content@.len(),
            None => tag_end(content@, from as int) is None,
        },
{
    let mut i: usize = from;
    while i < content.len()
        invariant
            from <= i,
            tag_end(content@, from as int) == tag_end(content@, i as int),
        decreases content@.len() - i,
    {
        let c = content[i];
        if whitespace(c) || c == '(' || c == ')' {
            return Some(i);
        }
        i = i + 1;
    }
    None
}

/// The tag of the list that opens at `open`.
pub fn tag_of(content: &[char], open: usize) -> (res: String)
    requires
        open < content@.len(),
    ensures
        res@ == tag_at(content@, open as int),
{
    assert(open < content.len());
    match find_tag_end(content, open + 1) {
        Some(end) => slice_text(content, open + 1, end),
        None => {
            let empty = String::new();
            assert(empty@ == Seq::<char>::empty());
            empty
        },
    }
}

/// Whether the list that opens at `open` has the tag `tag`.
fn has_tag(content: &[char], open: usize, tag: &[char]) -> (res: bool)
    requires
        open < content@.len(),
    ensures
        res == (tag_at(content@, open as int) == tag@),
{
    assert(open < content.len());
    match find_tag_end(content, open + 1) {
        Some(end) => {
            if end - (open + 1) != tag.len() {
                return false;
            }
            matches_at(content, open + 1, tag)
        },
        None => {
            assert(tag@.len() == 0 ==> tag@ =~= Seq::<char>::empty());
            tag.len() == 0
        },
    }
}

/// With a list open, nothing can go wrong before it closes.
proof fn lemma_opens_first(s: Seq<char>, i: int, l: Lex)
    requires
        l.depth >= 1,
    ensures
        opens_first(s, i, l),
    decreases s.len() - i,
{
    if 0 <= i < s.len() && !closes(l, s[i]) {
        lemma_opens_first(s, i + 1, step(l, s[i]));
    }
}

/// A scan that starts at a `(` opens that list first.
pub proof fn lemma_open_is_safe(s: Seq<char>, open: int)
    requires
        0 <= open < s.len(),
        s[open] == '(',
    ensures
        opens_first(s, open, outside()),
{
    lemma_opens_first(s, open + 1, step(outside(), s[open]));
}

/// Every `(tag …)` node opening directly at `depth` inside `range`.
///
/// Depth is counted from the start of `range`, where the enclosing block's own
/// `(` has not yet been seen, so a top-level node in a `.kicad_pcb`, which sits
/// inside `(kicad_pcb …)`, is at depth 1.
pub fn nodes_at_depth(content: &[char], range: (usize, usize), tag: &str, depth: usize) -> (res:
    Vec<Span>)
    requires
        range.0 < range.1 ==> range.1 <= content@.len(),
    ensures
        span_nodes(res@) == tagged(
            content@,
            nodes_in(content@, range.0 as int, range.1 as int, depth as nat),
            tag@,
        ),
        forall|k: int|
            0 <= k < res@.len() ==> range.0 <= (#[trigger] res@[k]).start < range.1
                && res@[k].start <= res@[k].end < content@.len(),
{
    let pattern = to_chars(tag);
    let mut found: Vec<Span> = Vec::new();
    let mut cur: usize = 0;
    let mut quoted = false;
    let mut escaped = false;
    let mut i: usize = range.0;
    let ghost all = tagged(
        content@,
        nodes_in(content@, range.0 as int, range.1 as int, depth as nat),
        tag@,
    );
    assert(span_nodes(found@) =~= Seq::empty());
    while i < range.1
        invariant
            range.0 <= i,
            range.0 < range.1 ==> i <= range.1 <= content@.len(),
            pattern@ == tag@,
            cur <= i - range.0,
            all == span_nodes(found@) + tagged(
                content@,
                nodes_from(
                    content@,
                    i as int,
                    range.1 as int,
                    Lex { depth: cur as nat, quoted, escaped },
                    depth as nat,
                ),
                tag@,
            ),
            forall|k: int|
                0 <= k < found@.len() ==> range.0 <= (#[trigger] found@[k]).start < range.1
                    && found@[k].start <= found@[k].end < content@.len(),
        decreases range.1 - i,
    {
        let c = content[i];
        let ghost l = Lex { depth: cur as nat, quoted, escaped };
        let ghost here = nodes_from(content@, i as int, range.1 as int, l, depth as nat);
        let ghost rest = nodes_from(
            content@,
            i + 1,
            range.1 as int,
            step(l, c),
            depth as nat,
        );
        if !quoted && c == '(' && cur == depth {
            proof {
                lemma_open_is_safe(content@, i as int);
            }
            let close = close_of(content, i);
            proof {
                if close is Some {
                    assert(here.skip(1) =~= rest);
                }
            }
            if has_tag(content, i, pattern.as_slice()) {
                if let Some(end) = close {
                    let ghost before = span_nodes(found@);
                    found.push(Span { start: i, end });
                    assert(span_nodes(found@) =~= before.push(
                        Node { start: i as int, end: end as int },
                    ));
                    assert(all =~= span_nodes(found@) + tagged(content@, rest, tag@));
                }
            }
        }
        let (d, q, e) = advance(c, cur, quoted, escaped);
        cur = d;
        quoted = q;
        escaped = e;
        i = i + 1;
    }
    assert(all =~= span_nodes(found@));
    found
}

/// The first direct child with this tag of the block `b`.
pub open spec fn child_tagged(b: Seq<char>, tag: Seq<char>) -> Option<Node> {
    let all = tagged(b, nodes_in(b, 0, b.len() as int, 1), tag);
    if all.len() > 0 {
        Some(all[0])
    } else {
        None
    }
}

/// The first direct child of `block` with this tag.
pub fn find_child(block: &[char], tag: &str) -> (res: Option<Span>)
    ensures
        match res {
            Some(span) => child_tagged(block@, tag@) == Some(span@) && span.start <= span.end
                < block@.len(),
            None => child_tagged(block@, tag@) is None,
        },
{
    let found = nodes_at_depth(block, (0, block.len()), tag, 1);
    if found.len() > 0 {
        assert(span_nodes(found@)[0] == found@[0]@);
        Some(found[0])
    } else {
        None
    }
}

/// A direct child of a block: its tag and where it stands.
#[derive(Debug)]
pub struct Child {
    pub tag: String,
    pub span: Span,
}

/// The nodes that children stand for.
pub open spec fn child_nodes(list: Seq<Child>) -> Seq<Node> {
    list.map_values(|c: Child| c.span@)
}

/// Every direct child of `block`, in file order.
pub fn children_of(content: &[char], block: Span) -> (res: Vec<Child>)
    requires
        block.start <= block.end ==> block.end < content@.len(),
    ensures
        child_nodes(res@) == children(content@, block@),
        forall|k: int|
            0 <= k < res@.len() ==> {
                let child = #[trigger] res@[k];
                &&& child.tag@ == tag_at(content@, child.span.start as int)
                &&& block.start <= child.span.start <= block.end
                &&& child.span.start <= child.span.end < content@.len()
            },
{
    let mut out: Vec<Child> = Vec::new();
    let mut depth: usize = 0;
    let mut quoted = false;
    let mut escaped = false;
    let mut i: usize = block.start;
    let ghost all = children(content@, block@);
    assert(child_nodes(out@) =~= Seq::empty());
    while i <= block.end
        invariant
            block.start <= i,
            block.start <= block.end ==> i <= block.end + 1 && block.end < content@.len(),
            depth <= i - block.start,
            all == child_nodes(out@) + nodes_from(
                content@,
                i as int,
                block.end + 1,
                Lex { depth: depth as nat, quoted, escaped },
                1,
            ),
            forall|k: int|
                0 <= k < out@.len() ==> {
                    let child = #[trigger] out@[k];
                    &&& child.tag@ == tag_at(content@, child.span.start as int)
                    &&& block.start <= child.span.start <= block.end
                    &&& child.span.start <= child.span.end < content@.len()
                },
        decreases block.end + 1 - i,
    {
        assert(i < content.len());
        let c = content[i];
        let ghost l = Lex { depth: depth as nat, quoted, escaped };
        if !quoted && c == '(' && depth == 1 {
            proof {
                lemma_open_is_safe(content@, i as int);
            }
            if let Some(end) = close_of(content, i) {
                let ghost before = child_nodes(out@);
                out.push(Child { tag: tag_of(content, i), span: Span { start: i, end } });
                assert(child_nodes(out@) =~= before.push(
                    Node { start: i as int, end: end as int },
                ));
                assert(all =~= child_nodes(out@) + nodes_from(
                    content@,
                    i + 1,
                    block.end + 1,
                    step(l, c),
                    1,
                ));
            }
        }
        let (d, q, e) = advance(c, depth, quoted, escaped);
        depth = d;
        quoted = q;
        escaped = e;
        i = i + 1;
    }
    assert(all =~= child_nodes(out@));
    out
}

} // verus!
