//! Weak connectivity of a directed edge list, and the count of its weakly
//! connected components.
use vstd::prelude::*;

verus! {

/// Some edge joins `x` and `y`, in either direction.
pub open spec fn adjacent(edges: Seq<(usize, usize)>, x: int, y: int) -> bool {
    exists|e: int|
        0 <= e < edges.len() && ((#[trigger] edges[e].0 == x && edges[e].1 == y) || (edges[e].0 == y
            && edges[e].1 == x))
}

/// `p` is a walk along `edges`, ignoring edge direction.
pub open spec fn is_walk(edges: Seq<(usize, usize)>, p: Seq<int>) -> bool {
    &&& p.len() >= 1
    &&& forall|i: int| 0 <= i < p.len() - 1 ==> #[trigger] adjacent(edges, p[i], p[i + 1])
}

/// `a` and `b` are weakly connected: some walk leads from `a` to `b`.
pub open spec fn linked(edges: Seq<(usize, usize)>, a: int, b: int) -> bool {
    exists|p: Seq<int>| #[trigger] is_walk(edges, p) && p[0] == a && p.last() == b
}

/// Node `i` is the smallest node of its weakly connected component.
pub open spec fn is_root(edges: Seq<(usize, usize)>, i: int) -> bool {
    forall|j: int| 0 <= j < i ==> !#[trigger] linked(edges, i, j)
}

/// The number of weakly connected components among nodes `0..k` (one root
/// each).
pub open spec fn count_roots(edges: Seq<(usize, usize)>, k: int) -> nat
    decreases k,
{
    if k <= 0 {
        0
    } else {
        count_roots(edges, k - 1) + if is_root(edges, k - 1) {
            1nat
        } else {
            0nat
        }
    }
}

pub proof fn lemma_linked_refl(edges: Seq<(usize, usize)>, a: int)
    ensures
        linked(edges, a, a),
{
    let p = seq![a];
    assert(is_walk(edges, p));
}

pub proof fn lemma_linked_sym(edges: Seq<(usize, usize)>, a: int, b: int)
    requires
        linked(edges, a, b),
    ensures
        linked(edges, b, a),
{
    let p = choose|p: Seq<int>| #[trigger] is_walk(edges, p) && p[0] == a && p.last() == b;
    let q = p.reverse();
    assert forall|i: int| 0 <= i < q.len() - 1 implies #[trigger] adjacent(edges, q[i], q[i + 1]) by {
        let k = p.len() - 2 - i;
        assert(adjacent(edges, p[k], p[k + 1]));
        let e = choose|e: int|
            0 <= e < edges.len() && ((#[trigger] edges[e].0 == p[k] && edges[e].1 == p[k + 1]) || (
            edges[e].0 == p[k + 1] && edges[e].1 == p[k]));
        assert(q[i] == p[k + 1] && q[i + 1] == p[k]);
        assert(edges[e].0 == q[i] || edges[e].0 == q[i + 1]);
    }
    assert(is_walk(edges, q));
}

pub proof fn lemma_linked_trans(edges: Seq<(usize, usize)>, a: int, b: int, c: int)
    requires
        linked(edges, a, b),
        linked(edges, b, c),
    ensures
        linked(edges, a, c),
{
    let p = choose|p: Seq<int>| #[trigger] is_walk(edges, p) && p[0] == a && p.last() == b;
    let q = choose|q: Seq<int>| #[trigger] is_walk(edges, q) && q[0] == b && q.last() == c;
    let r = p + q.drop_first();
    assert forall|i: int| 0 <= i < r.len() - 1 implies #[trigger] adjacent(edges, r[i], r[i + 1]) by {
        if i < p.len() - 1 {
            assert(adjacent(edges, p[i], p[i + 1]));
        } else {
            let k = i - p.len() + 1;
            assert(adjacent(edges, q[k], q[k + 1]));
            if k == 0 {
                assert(r[i] == p.last());
            }
        }
    }
    assert(is_walk(edges, r));
    if q.len() == 1 {
        assert(r.last() == p.last());
    }
}

pub proof fn lemma_linked_edge(edges: Seq<(usize, usize)>, e: int)
    requires
        0 <= e < edges.len(),
    ensures
        linked(edges, edges[e].0 as int, edges[e].1 as int),
{
    let p = seq![edges[e].0 as int, edges[e].1 as int];
    assert(adjacent(edges, p[0], p[1]));
    assert(is_walk(edges, p));
}

pub proof fn lemma_linked_push(edges: Seq<(usize, usize)>, x: (usize, usize), a: int, b: int)
    requires
        linked(edges, a, b),
    ensures
        linked(edges.push(x), a, b),
{
    let es = edges.push(x);
    let p = choose|p: Seq<int>| #[trigger] is_walk(edges, p) && p[0] == a && p.last() == b;
    assert forall|i: int| 0 <= i < p.len() - 1 implies #[trigger] adjacent(es, p[i], p[i + 1]) by {
        assert(adjacent(edges, p[i], p[i + 1]));
        let e = choose|e: int|
            0 <= e < edges.len() && ((#[trigger] edges[e].0 == p[i] && edges[e].1 == p[i + 1]) || (
            edges[e].0 == p[i + 1] && edges[e].1 == p[i]));
        assert(es[e] == edges[e]);
        assert(es[e].0 == p[i] || es[e].0 == p[i + 1]);
    }
    assert(is_walk(es, p));
}

/// Where a walk in `edges + (u, v)` from `a` can be at step `k`.
spec fn reach_after_push(edges: Seq<(usize, usize)>, u: int, v: int, a: int, y: int) -> bool {
    ||| linked(edges, a, y)
    ||| (linked(edges, a, u) && linked(edges, v, y))
    ||| (linked(edges, a, v) && linked(edges, u, y))
}

proof fn lemma_walk_after_push(
    edges: Seq<(usize, usize)>,
    u: usize,
    v: usize,
    p: Seq<int>,
    k: int,
)
    requires
        is_walk(edges.push((u, v)), p),
        0 <= k < p.len(),
    ensures
        reach_after_push(edges, u as int, v as int, p[0], p[k]),
    decreases k,
{
    let es = edges.push((u, v));
    let a = p[0];
    if k == 0 {
        lemma_linked_refl(edges, a);
    } else {
        lemma_walk_after_push(edges, u, v, p, k - 1);
        let x = p[k - 1];
        let y = p[k];
        assert(adjacent(es, p[k - 1], p[(k - 1) + 1]));
        assert(adjacent(es, x, y));
        let e = choose|e: int|
            0 <= e < es.len() && ((#[trigger] es[e].0 == x && es[e].1 == y) || (es[e].0 == y && es[e].1
                == x));
        if e < edges.len() {
            assert(edges[e] == es[e]);
            assert(linked(edges, x, y)) by {
                lemma_linked_edge(edges, e);
                if edges[e].0 != x {
                    lemma_linked_sym(edges, y, x);
                }
            }
            if linked(edges, a, x) {
                lemma_linked_trans(edges, a, x, y);
            } else if linked(edges, a, u as int) && linked(edges, v as int, x) {
                lemma_linked_trans(edges, v as int, x, y);
            } else {
                lemma_linked_trans(edges, u as int, x, y);
            }
        } else {
            assert(es[e] == (u, v));
            lemma_linked_refl(edges, u as int);
            lemma_linked_refl(edges, v as int);
            if x == u && y == v {
                if linked(edges, a, x) {
                } else if linked(edges, a, u as int) && linked(edges, v as int, x) {
                    lemma_linked_sym(edges, v as int, x);
                    lemma_linked_trans(edges, a, u as int, v as int);
                } else {
                }
            } else {
                assert(x == v && y == u);
                if linked(edges, a, x) {
                } else if linked(edges, a, u as int) && linked(edges, v as int, x) {
                } else {
                    lemma_linked_sym(edges, u as int, x);
                    lemma_linked_trans(edges, a, v as int, u as int);
                }
            }
        }
    }
}

/// A walk that uses a new edge `(u, v)` splits at that edge.
pub proof fn lemma_linked_after_push(edges: Seq<(usize, usize)>, u: usize, v: usize, a: int, b: int)
    requires
        linked(edges.push((u, v)), a, b),
    ensures
        linked(edges, a, b) || (linked(edges, a, u as int) && linked(edges, v as int, b)) || (linked(
            edges,
            a,
            v as int,
        ) && linked(edges, u as int, b)),
{
    let p = choose|p: Seq<int>| #[trigger] is_walk(edges.push((u, v)), p) && p[0] == a && p.last() == b;
    lemma_walk_after_push(edges, u, v, p, p.len() - 1);
}

/// Labels that name the smallest node of each node's component.
pub open spec fn min_labels(edges: Seq<(usize, usize)>, comp: Seq<usize>) -> bool {
    forall|i: int|
        0 <= i < comp.len() ==> #[trigger] comp[i] <= i && linked(edges, i, comp[i] as int) && forall|j: int|
            0 <= j < comp[i] ==> !#[trigger] linked(edges, i, j)
}

proof fn lemma_same_label(edges: Seq<(usize, usize)>, comp: Seq<usize>, x: int, y: int)
    requires
        min_labels(edges, comp),
        0 <= x < comp.len(),
        0 <= y < comp.len(),
        linked(edges, x, y),
    ensures
        comp[x] == comp[y],
{
    let cx = comp[x] as int;
    let cy = comp[y] as int;
    lemma_linked_sym(edges, x, cx);
    lemma_linked_sym(edges, x, y);
    lemma_linked_trans(edges, y, x, cx);
    lemma_linked_trans(edges, x, y, cy);
    if cx < cy {
        assert(linked(edges, y, cx));
    } else if cy < cx {
        assert(linked(edges, x, cy));
    }
}

/// Counts the weakly connected components of the graph on nodes `0..n`
/// with edge list `edges` (direction ignored).
pub fn weak_component_count(n: usize, edges: &Vec<(usize, usize)>) -> (k: usize)
    requires
        forall|e: int| 0 <= e < edges.len() ==> #[trigger] edges@[e].0 < n && edges@[e].1 < n,
    ensures
        k == count_roots(edges@, n as int),
{
    let mut comp: Vec<usize> = Vec::new();
    let mut i: usize = 0;
    while i < n
        invariant
            0 <= i <= n,
            comp.len() == i,
            forall|x: int| 0 <= x < i ==> #[trigger] comp@[x] == x,
        decreases n - i,
    {
        comp.push(i);
        i = i + 1;
    }
    proof {
        let e0 = edges@.take(0);
        assert forall|x: int| 0 <= x < comp.len() implies #[trigger] comp@[x] <= x && linked(e0, x, comp@[x] as int) && forall|j: int|
            0 <= j < comp@[x] ==> !#[trigger] linked(e0, x, j) by {
            lemma_linked_refl(e0, x);
            assert forall|j: int| 0 <= j < comp@[x] implies !#[trigger] linked(e0, x, j) by {
                if linked(e0, x, j) {
                    let p = choose|p: Seq<int>| #[trigger] is_walk(e0, p) && p[0] == x && p.last() == j;
                    if p.len() > 1 {
                        assert(adjacent(e0, p[0int], p[0int + 1]));
                    }
                }
            }
        }
    }
    let mut t: usize = 0;
    while t < edges.len()
        invariant
            0 <= t <= edges.len(),
            comp.len() == n,
            forall|e: int| 0 <= e < edges.len() ==> #[trigger] edges@[e].0 < n && edges@[e].1 < n,
            min_labels(edges@.take(t as int), comp@),
        decreases edges.len() - t,
    {
        let (u, v) = edges[t];
        let ghost old_e = edges@.take(t as int);
        let ghost new_e = edges@.take(t + 1);
        let ghost old_comp = comp@;
        proof {
            assert(new_e == old_e.push((u, v)));
        }
        let cu = comp[u];
        let cv = comp[v];
        let (m, big) = if cu < cv { (cu, cv) } else { (cv, cu) };
        let mut x: usize = 0;
        while x < n
            invariant
                0 <= x <= n,
                comp.len() == n,
                old_comp.len() == n,
                forall|y: int| 0 <= y < x ==> #[trigger] comp@[y] == if old_comp[y] == big { m } else { old_comp[y] },
                forall|y: int| x <= y < n ==> #[trigger] comp@[y] == old_comp[y],
            decreases n - x,
        {
            if comp[x] == big {
                comp.set(x, m);
            }
            x = x + 1;
        }
        proof {
            let c = comp@;
            lemma_linked_edge(edges@, t as int);
            assert(edges@[t as int] == new_e[t as int]);
            lemma_linked_edge(new_e, t as int);
            assert forall|y: int| 0 <= y < n implies #[trigger] c[y] <= y && linked(new_e, y, c[y] as int) && forall|j: int|
                0 <= j < c[y] ==> !#[trigger] linked(new_e, y, j) by {
                let oy = old_comp[y] as int;
                assert(oy <= y && linked(old_e, y, oy));
                lemma_linked_push(old_e, (u, v), y, oy);
                let in_merged = oy == cu || oy == cv;
                if in_merged {
                    // y reaches both u and v through the new edge; c[y] == m.
                    assert(linked(old_e, u as int, cu as int));
                    assert(linked(old_e, v as int, cv as int));
                    lemma_linked_push(old_e, (u, v), u as int, cu as int);
                    lemma_linked_push(old_e, (u, v), v as int, cv as int);
                    lemma_linked_sym(new_e, u as int, cu as int);
                    lemma_linked_sym(new_e, v as int, cv as int);
                    lemma_linked_trans(new_e, cu as int, u as int, v as int);
                    lemma_linked_trans(new_e, cu as int, v as int, cv as int);
                    lemma_linked_sym(new_e, cu as int, cv as int);
                    if oy == cu {
                        lemma_linked_trans(new_e, y, cu as int, cv as int);
                    } else {
                        lemma_linked_trans(new_e, y, cv as int, cu as int);
                    }
                    assert(c[y] == m);
                }
                assert forall|j: int| 0 <= j < c[y] implies !#[trigger] linked(new_e, y, j) by {
                    if linked(new_e, y, j) {
                        lemma_linked_after_push(old_e, u, v, y, j);
                        assert(j < n) by {
                            assert(c[y] <= y);
                        }
                        if linked(old_e, y, j) {
                            lemma_same_label(old_e, old_comp, y, j);
                        } else if linked(old_e, y, u as int) && linked(old_e, v as int, j) {
                            lemma_same_label(old_e, old_comp, y, u as int);
                            lemma_same_label(old_e, old_comp, v as int, j);
                        } else {
                            lemma_same_label(old_e, old_comp, y, v as int);
                            lemma_same_label(old_e, old_comp, u as int, j);
                        }
                    }
                }
            }
        }
        t = t + 1;
    }
    proof {
        assert(edges@.take(edges.len() as int) =~= edges@);
    }
    let mut count: usize = 0;
    let mut r: usize = 0;
    while r < n
        invariant
            0 <= r <= n,
            comp.len() == n,
            min_labels(edges@, comp@),
            count == count_roots(edges@, r as int),
            count <= r,
        decreases n - r,
    {
        proof {
            assert(comp@[r as int] == r <==> is_root(edges@, r as int)) by {
                if !(comp@[r as int] == r) {
                    assert(comp@[r as int] < r);
                    assert(linked(edges@, r as int, comp@[r as int] as int));
                }
            }
        }
        if comp[r] == r {
            count = count + 1;
        }
        r = r + 1;
    }
    count
}

} // verus!
