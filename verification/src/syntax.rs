//! A concrete syntax tree held as plain values, and its depth-first walk.
use vstd::prelude::*;

verus! {

/// A node of a concrete syntax tree: its kind, its byte span in the source,
/// its start position, and its children in source order.
#[derive(Debug)]
pub struct SyntaxNode {
    /// Grammar node kind (e.g. `"use_declaration"`).
    pub kind: String,
    /// Byte offset where the node starts.
    pub start_byte: usize,
    /// Byte offset just past the node's end.
    pub end_byte: usize,
    /// Zero-indexed row of the node's start.
    pub start_row: usize,
    /// Zero-indexed column of the node's start.
    pub start_col: usize,
    /// Child nodes in source order.
    pub children: Vec<SyntaxNode>,
}

/// Whether `kinds` lists the kind of node `n`.
pub open spec fn kind_in(n: SyntaxNode, kinds: Seq<Seq<char>>) -> bool {
    kinds.contains(n.kind@)
}

/// The order in which a stack-based depth-first walk visits the nodes under
/// `n`: the node itself, then, unless its kind is one of `stops`, the
/// subtrees of its children from last to first.
pub open spec fn visit(n: SyntaxNode, stops: Seq<Seq<char>>) -> Seq<SyntaxNode>
    decreases n,
{
    if kind_in(n, stops) {
        seq![n]
    } else {
        seq![n] + visit_all(n.children@, stops)
    }
}

/// The walk of a stack of nodes, top (last) first.
pub open spec fn visit_all(ns: Seq<SyntaxNode>, stops: Seq<Seq<char>>) -> Seq<SyntaxNode>
    decreases ns,
{
    if ns.len() == 0 {
        Seq::empty()
    } else {
        visit(ns.last(), stops) + visit_all(ns.drop_last(), stops)
    }
}

/// The nodes behind a list of references.
pub open spec fn derefs(v: Seq<&SyntaxNode>) -> Seq<SyntaxNode> {
    v.map_values(|r: &SyntaxNode| *r)
}

proof fn lemma_visit_all_concat(a: Seq<SyntaxNode>, b: Seq<SyntaxNode>, stops: Seq<Seq<char>>)
    ensures
        visit_all(a + b, stops) == visit_all(b, stops) + visit_all(a, stops),
    decreases b.len(),
{
    if b.len() == 0 {
        assert(a + b =~= a);
        assert(visit_all(b, stops) =~= Seq::<SyntaxNode>::empty());
        assert(visit_all(b, stops) + visit_all(a, stops) =~= visit_all(a, stops));
    } else {
        assert((a + b).drop_last() =~= a + b.drop_last());
        assert((a + b).last() == b.last());
        lemma_visit_all_concat(a, b.drop_last(), stops);
        assert(visit_all(a + b, stops) =~= visit(b.last(), stops) + (visit_all(b.drop_last(), stops)
            + visit_all(a, stops)));
    }
}

proof fn lemma_visit_nonempty(n: SyntaxNode, stops: Seq<Seq<char>>)
    ensures
        visit(n, stops).len() >= 1,
        visit(n, stops)[0] == n,
{
}

pub(crate) fn kind_listed(kind: &String, stops: &Vec<String>) -> (r: bool)
    ensures
        r == stops@.map_values(|s: String| s@).contains(kind@),
{
    let ghost v = stops@.map_values(|s: String| s@);
    let mut i: usize = 0;
    while i < stops.len()
        invariant
            0 <= i <= stops.len(),
            v == stops@.map_values(|s: String| s@),
            forall|j: int| 0 <= j < i ==> v[j] != kind@,
        decreases stops.len() - i,
    {
        if stops[i] == *kind {
            assert(v[i as int] == kind@);
            return true;
        }
        i = i + 1;
    }
    false
}

/// Walks the tree under `root` depth-first with an explicit stack, as
/// `visit` describes: nodes whose kind is in `stops` are listed but not
/// descended into.
pub fn walk<'a>(root: &'a SyntaxNode, stops: &Vec<String>) -> (order: Vec<&'a SyntaxNode>)
    ensures
        derefs(order@) == visit(*root, stops@.map_values(|s: String| s@)),
{
    let ghost ks = stops@.map_values(|s: String| s@);
    let mut order: Vec<&'a SyntaxNode> = Vec::new();
    let mut stack: Vec<&'a SyntaxNode> = Vec::new();
    stack.push(root);
    proof {
        assert(derefs(stack@) =~= seq![*root]);
        assert(derefs(stack@).drop_last() =~= Seq::<SyntaxNode>::empty());
        assert(derefs(stack@).last() == *root);
        assert(visit_all(Seq::<SyntaxNode>::empty(), ks) =~= Seq::<SyntaxNode>::empty());
        assert(visit_all(derefs(stack@), ks) == visit(*root, ks) + visit_all(Seq::<SyntaxNode>::empty(), ks));
        assert(visit_all(derefs(stack@), ks) =~= visit(*root, ks));
        assert(derefs(order@) =~= Seq::<SyntaxNode>::empty());
    }
    while stack.len() > 0
        invariant
            ks == stops@.map_values(|s: String| s@),
            derefs(order@) + visit_all(derefs(stack@), ks) == visit(*root, ks),
        decreases visit_all(derefs(stack@), ks).len(),
    {
        let ghost before_stack = derefs(stack@);
        let ghost before_order = derefs(order@);
        let n = stack.pop().unwrap();
        proof {
            assert(derefs(stack@) =~= before_stack.drop_last());
            assert(before_stack.last() == *n);
            lemma_visit_nonempty(*n, ks);
        }
        order.push(n);
        assert(derefs(order@) =~= before_order.push(*n));
        if !kind_listed(&n.kind, stops) {
            let ghost rest = derefs(stack@);
            let mut i: usize = 0;
            while i < n.children.len()
                invariant
                    0 <= i <= n.children.len(),
                    derefs(stack@) == rest + n.children@.take(i as int),
                decreases n.children.len() - i,
            {
                let ghost before = derefs(stack@);
                let c = &n.children[i];
                assert(*c == n.children@[i as int]);
                stack.push(c);
                assert(derefs(stack@) =~= before.push(n.children@[i as int]));
                assert(n.children@.take(i + 1) =~= n.children@.take(i as int).push(n.children@[i as int]));
                assert(derefs(stack@) =~= rest + n.children@.take(i + 1));
                i = i + 1;
            }
            proof {
                assert(n.children@.take(n.children.len() as int) =~= n.children@);
                lemma_visit_all_concat(rest, n.children@, ks);
                assert(visit(*n, ks) =~= seq![*n] + visit_all(n.children@, ks));
                assert(derefs(order@) + visit_all(derefs(stack@), ks) =~= before_order + (visit(*n, ks)
                    + visit_all(rest, ks)));
            }
        } else {
            proof {
                assert(visit(*n, ks) =~= seq![*n]);
                assert(derefs(order@) + visit_all(derefs(stack@), ks) =~= before_order + (visit(*n, ks)
                    + visit_all(derefs(stack@), ks)));
            }
        }
    }
    assert(visit_all(derefs(stack@), ks) =~= Seq::<SyntaxNode>::empty());
    assert(derefs(order@) =~= derefs(order@) + visit_all(derefs(stack@), ks));
    order
}

} // verus!
