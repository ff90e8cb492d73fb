//! Locating symbol instances in a schematic by their reference designators.

use crate::scan::{node_text, nodes_at_depth, nodes_in, outside, span_nodes, tagged, Node, Span};
use crate::sexp::{document, parse_sexp, tagged_value};
use crate::structure::{
    is_node, laid_out, lemma_nodes_bounds, lemma_nodes_laid_out, lemma_tagged,
    lemma_tagged_laid_out,
};
use crate::text::{append_str, contains_text, has_text, join3, slice_text, to_chars, views};
use vstd::prelude::*;
use vstd::slice::slice_subrange;

verus! {

// ─── What a symbol block says ────────────────────────────────────────────────

/// What the property `field` starts with, up to its value.
pub open spec fn property_marker(field: Seq<char>) -> Seq<char> {
    "(property \""@ + field + "\" \""@
}

/// The `Reference` property with the value `reference`.
pub open spec fn reference_property(reference: Seq<char>) -> Seq<char> {
    property_marker("Reference"@) + reference + "\""@
}

/// An entry of the `(instances …)` block: `(reference "…")`.
pub open spec fn instance_entry(reference: Seq<char>) -> Seq<char> {
    "(reference \""@ + reference + "\")"@
}

/// Whether a symbol block's `Reference` property is `reference`.
pub open spec fn shows(block: Seq<char>, reference: Seq<char>) -> bool {
    contains_text(block, reference_property(reference))
}

/// Whether a symbol block answers to `reference`, through its `Reference`
/// property or through an entry of its `(instances …)` block.
pub open spec fn answers(block: Seq<char>, reference: Seq<char>) -> bool {
    shows(block, reference) || contains_text(block, instance_entry(reference))
}

/// The symbol instances of a schematic.
pub open spec fn symbols(s: Seq<char>) -> Seq<Node> {
    tagged(s, nodes_in(s, 0, s.len() as int, 1), "symbol"@)
}

/// Those of `ns` that show `reference`.
pub open spec fn showing(s: Seq<char>, ns: Seq<Node>, reference: Seq<char>) -> Seq<Node>
    decreases ns.len(),
{
    if ns.len() == 0 {
        Seq::empty()
    } else {
        let front = showing(s, ns.drop_last(), reference);
        if shows(node_text(s, ns.last()), reference) {
            front.push(ns.last())
        } else {
            front
        }
    }
}

/// Those of `ns` that answer to `reference`.
pub open spec fn answering(s: Seq<char>, ns: Seq<Node>, reference: Seq<char>) -> Seq<Node>
    decreases ns.len(),
{
    if ns.len() == 0 {
        Seq::empty()
    } else {
        let front = answering(s, ns.drop_last(), reference);
        if answers(node_text(s, ns.last()), reference) {
            front.push(ns.last())
        } else {
            front
        }
    }
}

/// Every placement of `reference`: one per unit.
pub open spec fn instance_blocks(s: Seq<char>, reference: Seq<char>) -> Seq<Node> {
    showing(s, symbols(s), reference)
}

/// The first placement of `reference`.
pub open spec fn instance_block(s: Seq<char>, reference: Seq<char>) -> Option<Node> {
    let all = instance_blocks(s, reference);
    if all.len() > 0 {
        Some(all[0])
    } else {
        None
    }
}

/// The first symbol that answers to `reference`.
pub open spec fn answering_block(s: Seq<char>, reference: Seq<char>) -> Option<Node> {
    let all = answering(s, symbols(s), reference);
    if all.len() > 0 {
        Some(all[0])
    } else {
        None
    }
}

/// The symbols of a schematic are nodes, one behind the other.
pub proof fn lemma_symbols(s: Seq<char>)
    ensures
        forall|k: int| 0 <= k < symbols(s).len() ==> is_node(s, #[trigger] symbols(s)[k]),
        laid_out(symbols(s), 0, s.len() as int),
{
    let all = nodes_in(s, 0, s.len() as int, 1);
    lemma_nodes_bounds(s, 0, s.len() as int, outside(), 1);
    lemma_tagged(s, all, "symbol"@);
    lemma_nodes_laid_out(s, 0, outside(), 1);
    lemma_tagged_laid_out(s, all, "symbol"@, 0, s.len() as int);
}

/// What is picked shows the reference and is one of those picked from.
pub proof fn lemma_showing(s: Seq<char>, ns: Seq<Node>, reference: Seq<char>)
    ensures
        forall|k: int|
            0 <= k < showing(s, ns, reference).len() ==> ns.contains(
                #[trigger] showing(s, ns, reference)[k],
            ) && shows(node_text(s, showing(s, ns, reference)[k]), reference),
    decreases ns.len(),
{
    if ns.len() > 0 {
        let front = ns.drop_last();
        lemma_showing(s, front, reference);
        assert forall|k: int| 0 <= k < showing(s, ns, reference).len() implies ns.contains(
            #[trigger] showing(s, ns, reference)[k],
        ) && shows(node_text(s, showing(s, ns, reference)[k]), reference) by {
            let n = showing(s, ns, reference)[k];
            if k < showing(s, front, reference).len() {
                assert(n == showing(s, front, reference)[k]);
                let j = choose|j: int| 0 <= j < front.len() && front[j] == n;
                assert(ns[j] == n);
            } else {
                assert(ns[ns.len() - 1] == n);
            }
        }
    }
}

proof fn lemma_laid_out_front(ns: Seq<Node>, i: int, hi: int)
    requires
        laid_out(ns, i, hi),
        ns.len() > 0,
    ensures
        laid_out(ns.drop_last(), i, ns.last().start),
        laid_out(ns.drop_last(), i, hi),
        i <= ns.last().start <= ns.last().end < hi,
    decreases ns.len(),
{
    if ns.len() == 1 {
        assert(ns.drop_last() =~= Seq::<Node>::empty());
    } else {
        let rest = ns.skip(1);
        lemma_laid_out_front(rest, ns[0].end + 1, hi);
        assert(rest.last() == ns.last());
        assert(ns.drop_last().skip(1) =~= rest.drop_last());
    }
}

proof fn lemma_laid_out_push(ns: Seq<Node>, i: int, mid: int, n: Node, hi: int)
    requires
        laid_out(ns, i, mid),
        mid <= n.start <= n.end < hi,
    ensures
        laid_out(ns.push(n), i, hi),
    decreases ns.len(),
{
    if ns.len() > 0 {
        lemma_laid_out_push(ns.skip(1), ns[0].end + 1, mid, n, hi);
        assert(ns.push(n).skip(1) =~= ns.skip(1).push(n));
        assert(ns.push(n)[0] == ns[0]);
    } else {
        assert(ns.push(n).skip(1) =~= Seq::<Node>::empty());
        assert(ns.push(n)[0] == n);
        assert(laid_out(ns.push(n).skip(1), n.end + 1, hi));
    }
}

proof fn lemma_laid_out_wider(ns: Seq<Node>, i: int, hi: int, wider: int)
    requires
        laid_out(ns, i, hi),
        hi <= wider,
    ensures
        laid_out(ns, i, wider),
    decreases ns.len(),
{
    if ns.len() > 0 {
        lemma_laid_out_wider(ns.skip(1), ns[0].end + 1, hi, wider);
    }
}

/// Picking placements keeps them one behind the other.
pub proof fn lemma_showing_laid_out(
    s: Seq<char>,
    ns: Seq<Node>,
    reference: Seq<char>,
    i: int,
    hi: int,
)
    requires
        laid_out(ns, i, hi),
    ensures
        laid_out(showing(s, ns, reference), i, hi),
    decreases ns.len(),
{
    if ns.len() > 0 {
        lemma_laid_out_front(ns, i, hi);
        lemma_showing_laid_out(s, ns.drop_last(), reference, i, ns.last().start);
        let front = showing(s, ns.drop_last(), reference);
        lemma_laid_out_wider(front, i, ns.last().start, hi);
        lemma_laid_out_push(front, i, ns.last().start, ns.last(), hi);
    }
}

/// The placements of `reference` are nodes, one behind the other.
pub proof fn lemma_instance_blocks(s: Seq<char>, reference: Seq<char>)
    ensures
        forall|k: int|
            0 <= k < instance_blocks(s, reference).len() ==> is_node(
                s,
                #[trigger] instance_blocks(s, reference)[k],
            ) && shows(node_text(s, instance_blocks(s, reference)[k]), reference),
        laid_out(instance_blocks(s, reference), 0, s.len() as int),
{
    lemma_symbols(s);
    lemma_showing(s, symbols(s), reference);
    lemma_showing_laid_out(s, symbols(s), reference, 0, s.len() as int);
    assert forall|k: int| 0 <= k < instance_blocks(s, reference).len() implies is_node(
        s,
        #[trigger] instance_blocks(s, reference)[k],
    ) by {
        let n = instance_blocks(s, reference)[k];
        assert(symbols(s).contains(n));
    }
}

proof fn lemma_answering(s: Seq<char>, ns: Seq<Node>, reference: Seq<char>)
    ensures
        answering(s, ns, reference).len() > 0 ==> ns.contains(answering(s, ns, reference)[0]),
    decreases ns.len(),
{
    if ns.len() > 0 {
        let front = ns.drop_last();
        lemma_answering(s, front, reference);
        if answering(s, front, reference).len() > 0 {
            let n = answering(s, front, reference)[0];
            let j = choose|j: int| 0 <= j < front.len() && front[j] == n;
            assert(ns[j] == n);
        } else {
            assert(ns[ns.len() - 1] == ns.last());
        }
    }
}

/// The symbol that answers to `reference` is a node.
pub proof fn lemma_answering_block(s: Seq<char>, reference: Seq<char>)
    ensures
        answering_block(s, reference) matches Some(n) ==> is_node(s, n),
{
    lemma_symbols(s);
    lemma_answering(s, symbols(s), reference);
}

// ─── Finding blocks ──────────────────────────────────────────────────────────

/// The text that the property `field` starts with.
pub fn marker_of(field: &str) -> (res: Vec<char>)
    ensures
        res@ == property_marker(field@),
        res@.len() > 0,
{
    let mut out: Vec<char> = Vec::new();
    append_str(&mut out, "(property \"");
    append_str(&mut out, field);
    append_str(&mut out, "\" \"");
    assert(out@ =~= property_marker(field@));
    proof {
        reveal_strlit("(property \"");
    }
    out
}

fn reference_pattern(reference: &str) -> (res: Vec<char>)
    ensures
        res@ == reference_property(reference@),
        res@.len() > 0,
{
    let mut out = marker_of("Reference");
    append_str(&mut out, reference);
    append_str(&mut out, "\"");
    out
}

/// The text of an entry of the `(instances …)` block.
pub fn entry_of(reference: &str) -> (res: Vec<char>)
    ensures
        res@ == instance_entry(reference@),
        res@.len() > 0,
{
    let mut out: Vec<char> = Vec::new();
    append_str(&mut out, "(reference \"");
    append_str(&mut out, reference);
    append_str(&mut out, "\")");
    assert(out@ =~= instance_entry(reference@));
    proof {
        reveal_strlit("(reference \"");
    }
    out
}

/// Every placement of `reference`, in file order.
pub fn find_all_symbol_instance_blocks(content: &[char], reference: &str) -> (res: Vec<Span>)
    ensures
        span_nodes(res@) == instance_blocks(content@, reference@),
        forall|k: int| 0 <= k < res@.len() ==> is_node(content@, (#[trigger] res@[k])@),
{
    let ghost s = content@;
    let len = content.len();
    let all = nodes_at_depth(content, (0, len), "symbol", 1);
    let pattern = reference_pattern(reference);
    let ghost nodes = symbols(s);
    let mut out: Vec<Span> = Vec::new();
    let mut i: usize = 0;
    proof {
        lemma_symbols(s);
        assert(nodes.take(0) =~= Seq::<Node>::empty());
        assert(span_nodes(out@) =~= Seq::<Node>::empty());
    }
    while i < all.len()
        invariant
            i <= all@.len(),
            s == content@,
            nodes == span_nodes(all@),
            forall|k: int| 0 <= k < nodes.len() ==> is_node(s, #[trigger] nodes[k]),
            pattern@ == reference_property(reference@),
            pattern@.len() > 0,
            span_nodes(out@) == showing(s, nodes.take(i as int), reference@),
            forall|k: int| 0 <= k < out@.len() ==> is_node(s, (#[trigger] out@[k])@),
        decreases all@.len() - i,
    {
        let span = all[i];
        proof {
            assert(nodes[i as int] == span@);
            assert(nodes.take(i + 1).drop_last() =~= nodes.take(i as int));
            assert(nodes.take(i + 1).last() == span@);
            assert(span.end < content.len());
        }
        let block = slice_subrange(content, span.start, span.end + 1);
        if has_text(block, pattern.as_slice()) {
            let ghost before = span_nodes(out@);
            out.push(span);
            assert(span_nodes(out@) =~= before.push(span@));
        }
        i = i + 1;
    }
    assert(nodes.take(i as int) =~= nodes);
    out
}

/// The first placement of `reference`.
pub fn find_symbol_instance_block(content: &[char], reference: &str) -> (res: Option<Span>)
    ensures
        match res {
            Some(span) => instance_block(content@, reference@) == Some(span@) && is_node(
                content@,
                span@,
            ),
            None => instance_block(content@, reference@) is None,
        },
{
    let all = find_all_symbol_instance_blocks(content, reference);
    if all.len() > 0 {
        assert(span_nodes(all@)[0] == all@[0]@);
        Some(all[0])
    } else {
        None
    }
}

/// The first symbol that answers to `reference`. In a sheet instantiated more
/// than once a reference usually exists only in the `(instances …)` block.
pub fn find_symbol_block_by_any_reference(content: &[char], reference: &str) -> (res: Option<Span>)
    ensures
        match res {
            Some(span) => answering_block(content@, reference@) == Some(span@) && is_node(
                content@,
                span@,
            ),
            None => answering_block(content@, reference@) is None,
        },
{
    let ghost s = content@;
    let len = content.len();
    let all = nodes_at_depth(content, (0, len), "symbol", 1);
    let property = reference_pattern(reference);
    let entry = entry_of(reference);
    let ghost nodes = symbols(s);
    let mut i: usize = 0;
    proof {
        lemma_symbols(s);
        assert(nodes.take(0) =~= Seq::<Node>::empty());
    }
    while i < all.len()
        invariant
            i <= all@.len(),
            s == content@,
            nodes == span_nodes(all@),
            nodes == symbols(s),
            forall|k: int| 0 <= k < nodes.len() ==> is_node(s, #[trigger] nodes[k]),
            property@ == reference_property(reference@),
            property@.len() > 0,
            entry@ == instance_entry(reference@),
            entry@.len() > 0,
            answering(s, nodes.take(i as int), reference@).len() == 0,
        decreases all@.len() - i,
    {
        let span = all[i];
        proof {
            assert(nodes[i as int] == span@);
            assert(nodes.take(i + 1).drop_last() =~= nodes.take(i as int));
            assert(nodes.take(i + 1).last() == span@);
            assert(span.end < content.len());
        }
        let block = slice_subrange(content, span.start, span.end + 1);
        if has_text(block, property.as_slice()) || has_text(block, entry.as_slice()) {
            proof {
                assert(answering(s, nodes.take(i + 1), reference@)[0] == span@);
                lemma_answering_first(s, nodes, i + 1, reference@);
            }
            return Some(span);
        }
        i = i + 1;
    }
    assert(nodes.take(i as int) =~= nodes);
    None
}

proof fn lemma_answering_first(s: Seq<char>, ns: Seq<Node>, k: int, reference: Seq<char>)
    requires
        0 <= k <= ns.len(),
        answering(s, ns.take(k), reference).len() > 0,
    ensures
        answering(s, ns, reference).len() > 0,
        answering(s, ns, reference)[0] == answering(s, ns.take(k), reference)[0],
    decreases ns.len(),
{
    if k == ns.len() {
        assert(ns.take(k) =~= ns);
    } else {
        let front = ns.drop_last();
        assert(front.take(k) =~= ns.take(k));
        lemma_answering_first(s, front, k, reference);
    }
}

// ─── What identifies a symbol ────────────────────────────────────────────────

/// Why a symbol cannot be identified.
#[derive(Debug, Clone, Copy, PartialEq, Eq, Structural)]
pub enum ItemError {
    /// No symbol shows the reference.
    NotFound,
    /// Its block is not one s-expression.
    Malformed,
    /// Its block has no `(uuid …)`.
    NoUuid,
}

impl ItemError {
    /// The error in words.
    pub fn message(&self, reference: &str) -> (res: String)
        ensures
            res@ == match *self {
                ItemError::NotFound => "component '"@ + reference@ + "' not found"@,
                ItemError::Malformed => "component '"@ + reference@ + "' is malformed"@,
                ItemError::NoUuid => "component '"@ + reference@ + "' has no UUID"@,
            },
    {
        match self {
            ItemError::NotFound => join3("component '", reference, "' not found"),
            ItemError::Malformed => join3("component '", reference, "' is malformed"),
            ItemError::NoUuid => join3("component '", reference, "' has no UUID"),
        }
    }
}

/// The UUID that a symbol block holds.
pub open spec fn block_id(block: Seq<char>) -> Result<Seq<char>, ItemError> {
    match document(block) {
        None => Err(ItemError::Malformed),
        Some(tree) => match tagged_value(tree, "uuid"@) {
            None => Err(ItemError::NoUuid),
            Some(uuid) => Ok(uuid),
        },
    }
}

/// The UUID of the first placement of `reference`.
pub open spec fn item_id(s: Seq<char>, reference: Seq<char>) -> Result<Seq<char>, ItemError> {
    match instance_block(s, reference) {
        None => Err(ItemError::NotFound),
        Some(n) => block_id(node_text(s, n)),
    }
}

/// The UUIDs of the blocks `ns`, or why the first that has none has none.
pub open spec fn block_ids(s: Seq<char>, ns: Seq<Node>) -> Result<Seq<Seq<char>>, ItemError>
    decreases ns.len(),
{
    if ns.len() == 0 {
        Ok(Seq::empty())
    } else {
        match (block_ids(s, ns.drop_last()), block_id(node_text(s, ns.last()))) {
            (Err(e), _) => Err(e),
            (_, Err(e)) => Err(e),
            (Ok(front), Ok(id)) => Ok(front.push(id)),
        }
    }
}

/// The UUIDs of every placement of `reference`.
pub open spec fn item_ids(s: Seq<char>, reference: Seq<char>) -> Result<
    Seq<Seq<char>>,
    ItemError,
> {
    let blocks = instance_blocks(s, reference);
    if blocks.len() == 0 {
        Err(ItemError::NotFound)
    } else {
        block_ids(s, blocks)
    }
}

proof fn lemma_failed_block(s: Seq<char>, ns: Seq<Node>, k: int, error: ItemError)
    requires
        0 <= k <= ns.len(),
        block_ids(s, ns.take(k)) == Err::<Seq<Seq<char>>, ItemError>(error),
    ensures
        block_ids(s, ns) == Err::<Seq<Seq<char>>, ItemError>(error),
    decreases ns.len(),
{
    if k == ns.len() {
        assert(ns.take(k) =~= ns);
    } else {
        assert(ns.drop_last().take(k) =~= ns.take(k));
        lemma_failed_block(s, ns.drop_last(), k, error);
    }
}

fn id_in_block(content: &[char], span: Span) -> (res: Result<String, ItemError>)
    requires
        is_node(content@, span@),
    ensures
        match res {
            Ok(uuid) => block_id(node_text(content@, span@)) == Ok::<Seq<char>, ItemError>(uuid@),
            Err(e) => block_id(node_text(content@, span@)) == Err::<Seq<char>, ItemError>(e),
        },
{
    assert(span.end < content.len());
    let block = slice_text(content, span.start, span.end + 1);
    match parse_sexp(block.as_str()) {
        Err(_) => Err(ItemError::Malformed),
        Ok(tree) => match tree.find_str("uuid") {
            None => Err(ItemError::NoUuid),
            Some(uuid) => Ok(uuid.to_string()),
        },
    }
}

/// The UUID of the symbol that shows `reference`.
pub fn symbol_item_id(content: &str, reference: &str) -> (res: Result<String, ItemError>)
    ensures
        match res {
            Ok(uuid) => item_id(content@, reference@) == Ok::<Seq<char>, ItemError>(uuid@),
            Err(e) => item_id(content@, reference@) == Err::<Seq<char>, ItemError>(e),
        },
{
    let chars = to_chars(content);
    match find_symbol_instance_block(chars.as_slice(), reference) {
        None => Err(ItemError::NotFound),
        Some(span) => id_in_block(chars.as_slice(), span),
    }
}

/// The UUIDs of every symbol that shows `reference`: what a rename changes.
pub fn symbol_item_ids(content: &str, reference: &str) -> (res: Result<Vec<String>, ItemError>)
    ensures
        match res {
            Ok(ids) => item_ids(content@, reference@) == Ok::<Seq<Seq<char>>, ItemError>(
                views(ids@),
            ),
            Err(e) => item_ids(content@, reference@) == Err::<Seq<Seq<char>>, ItemError>(e),
        },
{
    let chars = to_chars(content);
    let text = chars.as_slice();
    let blocks = find_all_symbol_instance_blocks(text, reference);
    if blocks.len() == 0 {
        return Err(ItemError::NotFound);
    }
    let ghost s = text@;
    let ghost nodes = instance_blocks(s, reference@);
    let mut ids: Vec<String> = Vec::new();
    let mut i: usize = 0;
    proof {
        assert(nodes.take(0) =~= Seq::<Node>::empty());
        assert(views(ids@) =~= Seq::<Seq<char>>::empty());
    }
    while i < blocks.len()
        invariant
            i <= blocks@.len(),
            0 < blocks@.len(),
            s == text@,
            s == content@,
            nodes == span_nodes(blocks@),
            nodes == instance_blocks(s, reference@),
            forall|k: int| 0 <= k < blocks@.len() ==> is_node(s, (#[trigger] blocks@[k])@),
            block_ids(s, nodes.take(i as int)) == Ok::<Seq<Seq<char>>, ItemError>(views(ids@)),
        decreases blocks@.len() - i,
    {
        let span = blocks[i];
        proof {
            assert(nodes[i as int] == span@);
            assert(nodes.take(i + 1).drop_last() =~= nodes.take(i as int));
            assert(nodes.take(i + 1).last() == span@);
        }
        match id_in_block(text, span) {
            Ok(id) => {
                let ghost before = views(ids@);
                ids.push(id);
                assert(views(ids@) =~= before.push(id@));
            },
            Err(e) => {
                proof {
                    lemma_failed_block(s, nodes, i + 1, e);
                }
                return Err(e);
            },
        }
        i = i + 1;
    }
    assert(nodes.take(i as int) =~= nodes);
    Ok(ids)
}

} // verus!
