//! S-expressions: atoms, quoted strings and lists.

use crate::text::{
    is_white_space, lemma_white_end, same_text, skip_white, slice_text, to_chars, white_end,
    whitespace,
};
use vstd::prelude::*;

verus! {

// ─── The grammar ─────────────────────────────────────────────────────────────

/// An s-expression.
pub ghost enum Tree {
    Atom(Seq<char>),
    Text(Seq<char>),
    List(Seq<Tree>),
}

/// Whether `c` ends an atom.
pub open spec fn ends_atom(c: char) -> bool {
    is_white_space(c) || c == '(' || c == ')' || c == '"'
}

/// Where the atom that starts at `i` ends.
pub open spec fn atom_end(s: Seq<char>, i: int) -> int
    decreases s.len() - i,
{
    if i < 0 || i >= s.len() || ends_atom(s[i]) {
        i
    } else {
        atom_end(s, i + 1)
    }
}

/// What a backslash and `c` stand for in a quoted string.
pub open spec fn unescaped(c: char) -> char {
    if c == 'n' {
        '\n'
    } else if c == 'r' {
        '\r'
    } else if c == 't' {
        '\t'
    } else {
        c
    }
}

/// The rest of a quoted string from `i` on, and the position behind its closing
/// quote.
pub open spec fn string_at(s: Seq<char>, i: int) -> Option<(Seq<char>, int)>
    decreases s.len() - i,
{
    if i < 0 || i >= s.len() {
        None
    } else if s[i] == '"' {
        Some((Seq::empty(), i + 1))
    } else if s[i] == '\\' {
        if i + 1 >= s.len() {
            None
        } else {
            match string_at(s, i + 2) {
                Some((rest, end)) => Some((seq![unescaped(s[i + 1])] + rest, end)),
                None => None,
            }
        }
    } else {
        match string_at(s, i + 1) {
            Some((rest, end)) => Some((seq![s[i]] + rest, end)),
            None => None,
        }
    }
}

/// The expression that starts at `i`, and the position behind it.
pub open spec fn value_at(s: Seq<char>, i: int) -> Option<(Tree, int)>
    decreases s.len() - i, 0int,
{
    if i < 0 || i >= s.len() || s[i] == ')' {
        None
    } else if s[i] == '(' {
        match items_at(s, i + 1) {
            Some((items, end)) => Some((Tree::List(items), end)),
            None => None,
        }
    } else if s[i] == '"' {
        match string_at(s, i + 1) {
            Some((text, end)) => Some((Tree::Text(text), end)),
            None => None,
        }
    } else {
        Some((Tree::Atom(s.subrange(i, atom_end(s, i))), atom_end(s, i)))
    }
}

/// The expressions from `i` up to the `)` that closes their list, and the
/// position behind it.
pub open spec fn items_at(s: Seq<char>, i: int) -> Option<(Seq<Tree>, int)>
    decreases s.len() - i, 1int,
    when 0 <= i
{
    let j = white_end(s, i, s.len() as int);
    if j < i || j >= s.len() {
        None
    } else if s[j] == ')' {
        Some((Seq::empty(), j + 1))
    } else {
        match value_at(s, j) {
            Some((item, k)) if j < k <= s.len() => match items_at(s, k) {
                Some((rest, end)) => Some((seq![item] + rest, end)),
                None => None,
            },
            _ => None,
        }
    }
}

/// The one expression that `s` holds, with nothing but white space around it.
pub open spec fn document(s: Seq<char>) -> Option<Tree> {
    match value_at(s, white_end(s, 0, s.len() as int)) {
        Some((tree, end)) if white_end(s, end, s.len() as int) >= s.len() => Some(tree),
        _ => None,
    }
}

// ─── Looking into a tree ─────────────────────────────────────────────────────

/// Whether `t` is a `(tag …)` list.
pub open spec fn is_tagged(t: Tree, tag: Seq<char>) -> bool {
    match t {
        Tree::List(items) => items.len() > 0 && items[0] == Tree::Atom(tag),
        _ => false,
    }
}

/// The `(tag …)` lists directly in `t`, in order.
pub open spec fn tagged_items(t: Tree, tag: Seq<char>) -> Seq<Tree> {
    match t {
        Tree::List(items) => items.filter(|item: Tree| is_tagged(item, tag)),
        _ => Seq::empty(),
    }
}

/// The first `(tag …)` list directly in `t`.
pub open spec fn tagged_item(t: Tree, tag: Seq<char>) -> Option<Tree> {
    let all = tagged_items(t, tag);
    if all.len() > 0 {
        Some(all[0])
    } else {
        None
    }
}

/// The characters of an atom or a quoted string.
pub open spec fn characters(t: Tree) -> Option<Seq<char>> {
    match t {
        Tree::Atom(text) => Some(text),
        Tree::Text(text) => Some(text),
        Tree::List(_) => None,
    }
}

/// The value of the first `(tag value …)` list directly in `t`.
pub open spec fn tagged_value(t: Tree, tag: Seq<char>) -> Option<Seq<char>> {
    match tagged_item(t, tag) {
        Some(Tree::List(items)) if items.len() > 1 => characters(items[1]),
        _ => None,
    }
}

// ─── The executable tree ─────────────────────────────────────────────────────

/// A parsed s-expression.
#[derive(Debug)]
pub enum SexpNode {
    Atom(String),
    Str(String),
    List(Vec<SexpNode>),
}

/// The trees that `nodes` stand for.
pub open spec fn trees(nodes: Seq<SexpNode>) -> Seq<Tree>
    decreases nodes,
{
    if nodes.len() == 0 {
        Seq::empty()
    } else {
        trees(nodes.drop_last()).push(nodes.last()@)
    }
}

impl View for SexpNode {
    type V = Tree;

    open spec fn view(&self) -> Tree
        decreases self,
    {
        match self {
            SexpNode::Atom(text) => Tree::Atom(text@),
            SexpNode::Str(text) => Tree::Text(text@),
            SexpNode::List(items) => Tree::List(trees(items@)),
        }
    }
}

/// The trees of nodes, one by one.
pub proof fn lemma_trees(nodes: Seq<SexpNode>)
    ensures
        trees(nodes).len() == nodes.len(),
        forall|k: int| 0 <= k < nodes.len() ==> trees(nodes)[k] == (#[trigger] nodes[k])@,
    decreases nodes.len(),
{
    if nodes.len() > 0 {
        lemma_trees(nodes.drop_last());
        assert forall|k: int| 0 <= k < nodes.len() implies trees(nodes)[k] == (
        #[trigger] nodes[k])@ by {
            let front = nodes.drop_last();
            assert(trees(nodes) == trees(front).push(nodes.last()@));
            if k < nodes.len() - 1 {
                assert(front[k] == nodes[k]);
                assert(trees(front)[k] == front[k]@);
            }
        }
    }
}

// ─── Parsing ─────────────────────────────────────────────────────────────────

spec fn text_behind(front: Seq<char>, rest: Option<(Seq<char>, int)>) -> Option<
    (Seq<char>, int),
> {
    match rest {
        Some((text, end)) => Some((front + text, end)),
        None => None,
    }
}

spec fn items_behind(front: Seq<Tree>, rest: Option<(Seq<Tree>, int)>) -> Option<
    (Seq<Tree>, int),
> {
    match rest {
        Some((items, end)) => Some((front + items, end)),
        None => None,
    }
}

fn unescape(c: char) -> (res: char)
    ensures
        res == unescaped(c),
{
    if c == 'n' {
        '\n'
    } else if c == 'r' {
        '\r'
    } else if c == 't' {
        '\t'
    } else {
        c
    }
}

fn parse_string(s: &[char], from: usize) -> (res: Option<(String, usize)>)
    requires
        from <= s@.len(),
    ensures
        match res {
            Some((text, end)) => string_at(s@, from as int) == Some((text@, end as int)) && from
                < end <= s@.len(),
            None => string_at(s@, from as int) is None,
        },
{
    let len = s.len();
    let mut out = String::new();
    let mut i: usize = from;
    proof {
        let whole = string_at(s@, from as int);
        if whole is Some {
            assert(Seq::<char>::empty() + (whole->0).0 =~= (whole->0).0);
        }
        assert(out@ =~= Seq::<char>::empty());
    }
    while i < len
        invariant
            len == s@.len(),
            from <= i <= len,
            string_at(s@, from as int) == text_behind(out@, string_at(s@, i as int)),
        decreases len - i,
    {
        let c = s[i];
        let ghost before = out@;
        if c == '"' {
            assert(before + Seq::<char>::empty() =~= before);
            return Some((out, i + 1));
        }
        if c == '\\' {
            if i + 1 >= len {
                return None;
            }
            out.push(unescape(s[i + 1]));
            proof {
                let rest = string_at(s@, i + 2);
                if rest is Some {
                    assert(before + (seq![unescaped(s@[i + 1])] + (rest->0).0) =~= out@ + (rest->0).0);
                }
            }
            i = i + 2;
        } else {
            out.push(c);
            proof {
                let rest = string_at(s@, i + 1);
                if rest is Some {
                    assert(before + (seq![c] + (rest->0).0) =~= out@ + (rest->0).0);
                }
            }
            i = i + 1;
        }
    }
    None
}

fn find_atom_end(s: &[char], from: usize) -> (res: usize)
    requires
        from <= s@.len(),
    ensures
        res == atom_end(s@, from as int),
        from <= res <= s@.len(),
        from < s@.len() && !ends_atom(s@[from as int]) ==> from < res,
{
    let mut i: usize = from;
    while i < s.len() && !(whitespace(s[i]) || s[i] == '(' || s[i] == ')' || s[i] == '"')
        invariant
            from <= i <= s@.len(),
            atom_end(s@, from as int) == atom_end(s@, i as int),
        decreases s@.len() - i,
    {
        i = i + 1;
    }
    i
}

fn parse_value(s: &[char], i: usize) -> (res: Option<(SexpNode, usize)>)
    requires
        i <= s@.len(),
        i < s@.len() ==> !is_white_space(s@[i as int]),
    ensures
        match res {
            Some((node, end)) => value_at(s@, i as int) == Some((node@, end as int)) && i < end
                <= s@.len(),
            None => value_at(s@, i as int) is None,
        },
    decreases s@.len() - i, 0int,
{
    if i >= s.len() || s[i] == ')' {
        return None;
    }
    if s[i] == '(' {
        match parse_items(s, i + 1) {
            Some((items, end)) => Some((SexpNode::List(items), end)),
            None => None,
        }
    } else if s[i] == '"' {
        match parse_string(s, i + 1) {
            Some((text, end)) => Some((SexpNode::Str(text), end)),
            None => None,
        }
    } else {
        let end = find_atom_end(s, i);
        Some((SexpNode::Atom(slice_text(s, i, end)), end))
    }
}

fn parse_items(s: &[char], from: usize) -> (res: Option<(Vec<SexpNode>, usize)>)
    requires
        from <= s@.len(),
    ensures
        match res {
            Some((items, end)) => items_at(s@, from as int) == Some((trees(items@), end as int))
                && from < end <= s@.len(),
            None => items_at(s@, from as int) is None,
        },
    decreases s@.len() - from, 1int,
{
    let len = s.len();
    let mut items: Vec<SexpNode> = Vec::new();
    let mut i: usize = from;
    proof {
        let whole = items_at(s@, from as int);
        assert(trees(items@) =~= Seq::<Tree>::empty());
        if whole is Some {
            assert(Seq::<Tree>::empty() + (whole->0).0 =~= (whole->0).0);
        }
    }
    while i < len
        invariant
            len == s@.len(),
            from <= i <= len,
            items_at(s@, from as int) == items_behind(trees(items@), items_at(s@, i as int)),
        decreases len - i,
    {
        proof {
            lemma_white_end(s@, i as int, len as int);
        }
        let j = skip_white(s, i, len);
        if j >= len {
            return None;
        }
        if s[j] == ')' {
            assert(trees(items@) + Seq::<Tree>::empty() =~= trees(items@));
            return Some((items, j + 1));
        }
        match parse_value(s, j) {
            Some((item, k)) => {
                let ghost before = items@;
                items.push(item);
                proof {
                    assert(items@.drop_last() =~= before);
                    let rest = items_at(s@, k as int);
                    if rest is Some {
                        assert(trees(before) + (seq![item@] + (rest->0).0) =~= trees(items@)
                            + (rest->0).0);
                    }
                }
                i = k;
            },
            None => {
                return None;
            },
        }
    }
    proof {
        lemma_white_end(s@, i as int, len as int);
    }
    None
}

/// Why a text is not one s-expression.
#[derive(Debug, Clone, Copy, PartialEq, Eq, Structural)]
pub struct Malformed;

/// The s-expression that `source` holds.
pub fn parse_sexp(source: &str) -> (res: Result<SexpNode, Malformed>)
    ensures
        match res {
            Ok(node) => document(source@) == Some(node@),
            Err(_) => document(source@) is None,
        },
{
    let chars = to_chars(source);
    let s = chars.as_slice();
    let len = s.len();
    proof {
        lemma_white_end(s@, 0, len as int);
    }
    let start = skip_white(s, 0, len);
    match parse_value(s, start) {
        Some((node, end)) => {
            if skip_white(s, end, len) >= len {
                Ok(node)
            } else {
                Err(Malformed)
            }
        },
        None => Err(Malformed),
    }
}

// ─── Queries ─────────────────────────────────────────────────────────────────

/// The trees that borrowed nodes stand for.
pub open spec fn borrowed_trees(nodes: Seq<&SexpNode>) -> Seq<Tree> {
    nodes.map_values(|n: &SexpNode| n@)
}

impl SexpNode {
    /// The characters of an atom or a quoted string.
    pub fn as_str(&self) -> (res: Option<&str>)
        ensures
            match res {
                Some(text) => characters(self@) == Some(text@),
                None => characters(self@) is None,
            },
    {
        match self {
            SexpNode::Atom(text) => Some(text.as_str()),
            SexpNode::Str(text) => Some(text.as_str()),
            SexpNode::List(_) => None,
        }
    }

    /// Whether this is a `(tag …)` list.
    fn has_tag(&self, tag: &str) -> (res: bool)
        ensures
            res == is_tagged(self@, tag@),
    {
        match self {
            SexpNode::List(items) => {
                proof {
                    lemma_trees(items@);
                }
                if items.len() == 0 {
                    return false;
                }
                match &items[0] {
                    SexpNode::Atom(head) => same_text(head.as_str(), tag),
                    _ => false,
                }
            },
            _ => false,
        }
    }

    /// Every `(tag …)` list directly in this one, in order.
    pub fn find_all(&self, tag: &str) -> (res: Vec<&SexpNode>)
        ensures
            borrowed_trees(res@) == tagged_items(self@, tag@),
    {
        let mut out: Vec<&SexpNode> = Vec::new();
        assert(borrowed_trees(out@) =~= Seq::<Tree>::empty());
        if let SexpNode::List(items) = self {
            let ghost wanted = |item: Tree| is_tagged(item, tag@);
            let ghost all = trees(items@);
            proof {
                lemma_trees(items@);
                assert(all.take(0).filter(wanted) =~= Seq::<Tree>::empty()) by {
                    reveal(Seq::filter);
                }
            }
            let mut i: usize = 0;
            while i < items.len()
                invariant
                    i <= items@.len(),
                    all == trees(items@),
                    all.len() == items@.len(),
                    wanted == (|item: Tree| is_tagged(item, tag@)),
                    forall|k: int| 0 <= k < items@.len() ==> all[k] == (#[trigger] items@[k])@,
                    borrowed_trees(out@) == all.take(i as int).filter(wanted),
                decreases items@.len() - i,
            {
                let ghost before = out@;
                proof {
                    reveal(Seq::filter);
                    assert(all.take(i + 1).drop_last() =~= all.take(i as int));
                    assert(all.take(i + 1).last() == items@[i as int]@);
                }
                if items[i].has_tag(tag) {
                    out.push(&items[i]);
                    assert(borrowed_trees(out@) =~= borrowed_trees(before).push(
                        items@[i as int]@,
                    ));
                }
                i = i + 1;
            }
            assert(all.take(all.len() as int) =~= all);
        }
        out
    }

    /// The first `(tag …)` list directly in this one.
    pub fn find(&self, tag: &str) -> (res: Option<&SexpNode>)
        ensures
            match res {
                Some(node) => tagged_item(self@, tag@) == Some(node@),
                None => tagged_item(self@, tag@) is None,
            },
    {
        let all = self.find_all(tag);
        if all.len() > 0 {
            assert(borrowed_trees(all@)[0] == all@[0]@);
            Some(all[0])
        } else {
            None
        }
    }

    /// The value of the first `(tag value …)` list directly in this one.
    pub fn find_str(&self, tag: &str) -> (res: Option<&str>)
        ensures
            match res {
                Some(text) => tagged_value(self@, tag@) == Some(text@),
                None => tagged_value(self@, tag@) is None,
            },
    {
        match self.find(tag) {
            Some(SexpNode::List(items)) => {
                proof {
                    lemma_trees(items@);
                }
                if items.len() > 1 {
                    items[1].as_str()
                } else {
                    None
                }
            },
            _ => None,
        }
    }
}

} // verus!
