//! Directed cycle detection by depth-first search.
use vstd::prelude::*;
use crate::graph::{DependencyGraph, out_targets};
use crate::sort::sort_ascending;

verus! {

broadcast use vstd::seq_lib::group_to_multiset_ensures;

/// `p` is a directed cycle of `edges`: it returns to its start and each step
/// follows an edge between two distinct nodes.
pub open spec fn is_cycle(edges: Seq<(usize, usize)>, p: Seq<usize>) -> bool {
    &&& p.len() >= 2
    &&& p[0] == p.last()
    &&& forall|i: int|
        0 <= i < p.len() - 1 ==> p[i] != p[i + 1] && #[trigger] edges.contains((p[i], p[i + 1]))
}

/// `edges` has a directed cycle (self-loops do not count).
pub open spec fn has_cycle(edges: Seq<(usize, usize)>) -> bool {
    exists|p: Seq<usize>| #[trigger] is_cycle(edges, p)
}

/// `a <= b` on node indices: the order neighbours are searched in.
pub open spec fn index_le() -> spec_fn(usize, usize) -> bool {
    |a: usize, b: usize| a <= b
}

/// The targets of the edges leaving `u`, in increasing order.
pub open spec fn sorted_targets(edges: Seq<(usize, usize)>, u: usize) -> Seq<usize> {
    out_targets(edges, u).sort_by(index_le())
}

/// Depth-first search from `u` on search state `st` = (visited, on stack,
/// back edges counted): mark `u`, scan its targets in increasing order, then
/// take `u` off the stack.  `fuel` bounds the depth of the search.
pub open spec fn dfs_visit(
    edges: Seq<(usize, usize)>,
    fuel: nat,
    st: (Seq<bool>, Seq<bool>, nat),
    u: usize,
) -> (Seq<bool>, Seq<bool>, nat)
    decreases fuel, 0int,
{
    if fuel == 0 {
        st
    } else {
        let st1 = (st.0.update(u as int, true), st.1.update(u as int, true), st.2);
        let st2 = dfs_scan(edges, (fuel - 1) as nat, st1, u, sorted_targets(edges, u), 0);
        (st2.0, st2.1.update(u as int, false), st2.2)
    }
}

/// The scan of targets `nbrs[k..]` of `u`: a self-loop is skipped, an
/// unvisited target is searched, a target on the stack closes a cycle and
/// counts one back edge, any other target is left alone.
pub open spec fn dfs_scan(
    edges: Seq<(usize, usize)>,
    fuel: nat,
    st: (Seq<bool>, Seq<bool>, nat),
    u: usize,
    nbrs: Seq<usize>,
    k: int,
) -> (Seq<bool>, Seq<bool>, nat)
    decreases fuel, nbrs.len() - k,
{
    if k < 0 || k >= nbrs.len() {
        st
    } else {
        let v = nbrs[k];
        let next = if v == u {
            st
        } else if !st.0[v as int] {
            dfs_visit(edges, fuel, st, v)
        } else if st.1[v as int] {
            (st.0, st.1, st.2 + 1)
        } else {
            st
        };
        dfs_scan(edges, fuel, next, u, nbrs, k + 1)
    }
}

/// Searches from each node `s..n` in turn that is still unvisited.
pub open spec fn dfs_from(edges: Seq<(usize, usize)>, n: nat, st: (Seq<bool>, Seq<bool>, nat), s: int) -> (
    Seq<bool>,
    Seq<bool>,
    nat,
)
    decreases n - s,
{
    if s < 0 || s >= n {
        st
    } else {
        let next = if !st.0[s] {
            dfs_visit(edges, n, st, s as usize)
        } else {
            st
        };
        dfs_from(edges, n, next, s + 1)
    }
}

/// The number of back edges that a depth-first search of a graph on `n`
/// nodes counts, starting from each node in index order.
pub open spec fn cycle_count(edges: Seq<(usize, usize)>, n: nat) -> nat {
    dfs_from(edges, n, (Seq::new(n, |i: int| false), Seq::new(n, |i: int| false), 0), 0).2
}

proof fn lemma_index_le_total()
    ensures
        vstd::relations::total_ordering(index_le()),
{
    let le = index_le();
    assert(vstd::relations::reflexive(le));
    assert(vstd::relations::antisymmetric(le));
    assert(vstd::relations::transitive(le));
    assert(vstd::relations::strongly_connected(le));
}

proof fn lemma_count_false_le(s: Seq<bool>)
    ensures
        count_false(s) <= s.len(),
    decreases s.len(),
{
    if s.len() > 0 {
        lemma_count_false_le(s.drop_last());
    }
}

/// The number of edges whose source has not been visited.
pub open spec fn pending(edges: Seq<(usize, usize)>, visited: Seq<bool>) -> nat
    decreases edges.len(),
{
    if edges.len() == 0 {
        0
    } else {
        pending(edges.drop_last(), visited) + if visited[edges.last().0 as int] {
            0nat
        } else {
            1nat
        }
    }
}

/// The number of unvisited nodes.
pub open spec fn count_false(s: Seq<bool>) -> nat
    decreases s.len(),
{
    if s.len() == 0 {
        0
    } else {
        count_false(s.drop_last()) + if s.last() {
            0nat
        } else {
            1nat
        }
    }
}

proof fn lemma_count_false_mark(s: Seq<bool>, x: int)
    requires
        0 <= x < s.len(),
        !s[x],
    ensures
        count_false(s.update(x, true)) + 1 == count_false(s),
    decreases s.len(),
{
    if x < s.len() - 1 {
        lemma_count_false_mark(s.drop_last(), x);
        assert(s.update(x, true).drop_last() =~= s.drop_last().update(x, true));
    } else {
        assert(s.update(x, true).drop_last() =~= s.drop_last());
    }
}

proof fn lemma_count_false_monotone(a: Seq<bool>, b: Seq<bool>)
    requires
        a.len() == b.len(),
        forall|x: int| 0 <= x < a.len() && #[trigger] a[x] ==> b[x],
    ensures
        count_false(b) <= count_false(a),
    decreases a.len(),
{
    if a.len() > 0 {
        lemma_count_false_monotone(a.drop_last(), b.drop_last());
        assert(a.last() ==> b.last()) by {
            assert(a[a.len() - 1] ==> b[b.len() - 1]);
        }
    }
}

proof fn lemma_pending_mark(edges: Seq<(usize, usize)>, visited: Seq<bool>, x: usize)
    requires
        x < visited.len(),
        !visited[x as int],
        forall|e: int| 0 <= e < edges.len() ==> #[trigger] edges[e].0 < visited.len(),
    ensures
        pending(edges, visited.update(x as int, true)) + out_targets(edges, x).len() == pending(edges, visited),
    decreases edges.len(),
{
    if edges.len() > 0 {
        let d = edges.drop_last();
        assert forall|e: int| 0 <= e < d.len() implies #[trigger] d[e].0 < visited.len() by {
            assert(d[e] == edges[e]);
        }
        lemma_pending_mark(d, visited, x);
        assert(edges.last() == edges[edges.len() - 1]);
    }
}

proof fn lemma_pending_monotone(edges: Seq<(usize, usize)>, visited: Seq<bool>, x: usize)
    requires
        x < visited.len(),
        forall|e: int| 0 <= e < edges.len() ==> #[trigger] edges[e].0 < visited.len(),
    ensures
        pending(edges, visited.update(x as int, true)) <= pending(edges, visited),
        pending(edges, visited) <= edges.len(),
    decreases edges.len(),
{
    if edges.len() > 0 {
        let d = edges.drop_last();
        assert forall|e: int| 0 <= e < d.len() implies #[trigger] d[e].0 < visited.len() by {
            assert(d[e] == edges[e]);
        }
        lemma_pending_monotone(d, visited, x);
        assert(edges.last() == edges[edges.len() - 1]);
    }
}

proof fn lemma_out_targets_contains(edges: Seq<(usize, usize)>, a: usize, y: usize)
    ensures
        out_targets(edges, a).contains(y) <==> edges.contains((a, y)),
    decreases edges.len(),
{
    if edges.len() > 0 {
        let d = edges.drop_last();
        lemma_out_targets_contains(d, a, y);
        let rest = out_targets(d, a);
        if edges.contains((a, y)) {
            let e = choose|e: int| 0 <= e < edges.len() && edges[e] == (a, y);
            if e < d.len() {
                assert(d[e] == (a, y));
            } else if edges.last().0 == a {
                assert(rest.push(edges.last().1)[rest.len() as int] == y);
            }
        }
        if d.contains((a, y)) {
            let e = choose|e: int| 0 <= e < d.len() && d[e] == (a, y);
            assert(edges[e] == (a, y));
        }
        if out_targets(edges, a).contains(y) && !rest.contains(y) {
            assert(edges.last() == (a, y));
            assert(edges[edges.len() - 1] == (a, y));
        }
        if rest.contains(y) && edges.last().0 == a {
            let k = choose|k: int| 0 <= k < rest.len() && rest[k] == y;
            assert(rest.push(edges.last().1)[k] == y);
        }
    }
}

/// The search state: on-stack nodes form a path, finished nodes carry
/// finish times, and unless a back edge was counted every edge out of a
/// finished node leads to a node finished earlier.
pub open spec fn dfs_state(
    edges: Seq<(usize, usize)>,
    n: int,
    visited: Seq<bool>,
    on_stack: Seq<bool>,
    stack: Seq<usize>,
    fin: Map<usize, nat>,
    clock: nat,
    cycles: int,
) -> bool {
    &&& visited.len() == n
    &&& on_stack.len() == n
    &&& forall|x: usize| x < n ==> (#[trigger] on_stack[x as int] <==> stack.contains(x))
    &&& stack.no_duplicates()
    &&& forall|i: int| 0 <= i < stack.len() ==> #[trigger] stack[i] < n
    &&& forall|i: int|
        0 <= i < stack.len() - 1 ==> stack[i] != stack[i + 1] && #[trigger] edges.contains(
            (stack[i], stack[i + 1]),
        )
    &&& forall|x: usize| x < n && #[trigger] on_stack[x as int] ==> visited[x as int]
    &&& forall|x: usize| #[trigger] fin.contains_key(x) ==> x < n && fin[x] < clock
    &&& forall|x: usize| x < n ==> (#[trigger] fin.contains_key(x) <==> visited[x as int] && !on_stack[x as int])
    &&& cycles == 0 ==> forall|x: usize, y: usize|
        #[trigger] fin.contains_key(x) && x != y && #[trigger] edges.contains((x, y)) ==> fin.contains_key(y)
            && fin[y] < fin[x]
    &&& cycles > 0 ==> has_cycle(edges)
    &&& cycles + pending(edges, visited) <= edges.len()
}

fn dfs_cycle_count(
    dg: &DependencyGraph,
    node: usize,
    visited: &mut Vec<bool>,
    on_stack: &mut Vec<bool>,
    cycles: &mut usize,
    Ghost(stack): Ghost<Seq<usize>>,
    Ghost(fin): Ghost<Map<usize, nat>>,
    Ghost(clock): Ghost<nat>,
    Ghost(fuel): Ghost<nat>,
) -> (out: Ghost<(Map<usize, nat>, nat)>)
    requires
        dg.well_formed(),
        node < dg@.nodes.len(),
        !old(visited)@[node as int],
        count_false(old(visited)@) <= fuel,
        dfs_state(dg@.edges, dg@.nodes.len() as int, old(visited)@, old(on_stack)@, stack, fin, clock, *old(cycles) as int),
        stack.len() > 0 ==> stack.last() != node && dg@.edges.contains((stack.last(), node)),
    ensures
        dfs_state(dg@.edges, dg@.nodes.len() as int, final(visited)@, final(on_stack)@, stack, out@.0, out@.1, *final(cycles) as int),
        final(visited)@[node as int],
        final(on_stack)@ == old(on_stack)@,
        forall|x: int| 0 <= x < old(visited)@.len() && #[trigger] old(visited)@[x] ==> final(visited)@[x],
        forall|x: usize| #[trigger] fin.contains_key(x) ==> out@.0.contains_key(x) && out@.0[x] == fin[x],
        clock <= out@.1,
        count_false(final(visited)@) < count_false(old(visited)@),
        *old(cycles) <= *final(cycles),
        *final(cycles) + pending(dg@.edges, final(visited)@) <= *old(cycles) + pending(dg@.edges, old(visited)@),
        (final(visited)@, final(on_stack)@, *final(cycles) as nat) == dfs_visit(
            dg@.edges,
            fuel,
            (old(visited)@, old(on_stack)@, *old(cycles) as nat),
            node,
        ),
    decreases count_false(old(visited)@),
{
    let ghost edges = dg@.edges;
    let ghost n = dg@.nodes.len() as int;
    let ghost c0 = *cycles;
    let ghost p0 = pending(edges, visited@);
    proof {
        assert forall|e: int| 0 <= e < edges.len() implies #[trigger] edges[e].0 < visited@.len() by {}
        lemma_pending_mark(edges, visited@, node);
        lemma_count_false_mark(visited@, node as int);
    }
    let ghost st0 = (visited@, on_stack@, *cycles as nat);
    visited.set(node, true);
    on_stack.set(node, true);
    let ghost st1 = (visited@, on_stack@, *cycles as nat);
    let ghost stack2 = stack.push(node);
    proof {
        assert(!stack.contains(node)) by {
            if stack.contains(node) {
                assert(old(on_stack)@[node as int]);
            }
        }
        assert forall|i: int| 0 <= i < stack2.len() - 1 implies stack2[i] != stack2[i + 1] && #[trigger] edges.contains(
            (stack2[i], stack2[i + 1])) by {
            if i == stack.len() - 1 {
                assert(stack2[i] == stack.last());
            } else {
                assert(stack2[i] == stack[i] && stack2[i + 1] == stack[i + 1]);
            }
        }
        assert forall|x: usize| x < n implies (#[trigger] on_stack@[x as int] <==> stack2.contains(x)) by {
            if x == node {
                assert(stack2[stack.len() as int] == node);
            } else {
                if stack2.contains(x) {
                    let k = choose|k: int| 0 <= k < stack2.len() && stack2[k] == x;
                    assert(stack[k] == x);
                }
                if stack.contains(x) {
                    let k = choose|k: int| 0 <= k < stack.len() && stack[k] == x;
                    assert(stack2[k] == x);
                }
            }
        }
    }
    let raw = dg.neighbors(node);
    let nbrs = sort_ascending(&raw);
    proof {
        assert(nbrs@.len() == out_targets(edges, node).len()) by {
            assert(nbrs@.to_multiset().len() == out_targets(edges, node).to_multiset().len());
        }
        lemma_index_le_total();
        out_targets(edges, node).lemma_sort_by_ensures(index_le());
        assert(vstd::relations::sorted_by(nbrs@, index_le()));
        vstd::seq_lib::lemma_sorted_unique(nbrs@, sorted_targets(edges, node), index_le());
        assert(st1.0 == st0.0.update(node as int, true));
        assert(st1.1 == st0.1.update(node as int, true));
    }
    let ghost mut fin2 = fin;
    let ghost mut clock2 = clock;
    let mut idx: usize = 0;
    while idx < nbrs.len()
        invariant
            dg.well_formed(),
            edges == dg@.edges,
            n == dg@.nodes.len(),
            old(visited)@.len() == n,
            node < n,
            0 <= idx <= nbrs.len(),
            nbrs@.to_multiset() == out_targets(edges, node).to_multiset(),
            nbrs@.len() == out_targets(edges, node).len(),
            dfs_state(edges, n, visited@, on_stack@, stack2, fin2, clock2, *cycles as int),
            stack2 == stack.push(node),
            visited@[node as int],
            on_stack@[node as int],
            forall|x: int| 0 <= x < old(visited)@.len() && #[trigger] old(visited)@[x] ==> visited@[x],
            forall|x: usize| #[trigger] fin.contains_key(x) ==> fin2.contains_key(x) && fin2[x] == fin[x],
            c0 <= *cycles,
            forall|x: usize| x < n && x != node ==> (#[trigger] on_stack@[x as int] == old(on_stack)@[x as int]),
            forall|j: int|
                0 <= j < idx && nbrs@[j] != node ==> (*cycles == 0 ==> #[trigger] fin2.contains_key(nbrs@[j])),
            *cycles + pending(edges, visited@) + (nbrs.len() - idx) <= c0 + p0,
            c0 + p0 <= edges.len(),
            clock <= clock2,
            count_false(visited@) < count_false(old(visited)@),
            count_false(old(visited)@) <= fuel,
            nbrs@ == sorted_targets(edges, node),
            dfs_scan(edges, (fuel - 1) as nat, st1, node, nbrs@, 0) == dfs_scan(
                edges,
                (fuel - 1) as nat,
                (visited@, on_stack@, *cycles as nat),
                node,
                nbrs@,
                idx as int,
            ),
        decreases nbrs.len() - idx,
    {
        let nb = nbrs[idx];
        let ghost cur = (visited@, on_stack@, *cycles as nat);
        proof {
            assert(nbrs@.to_multiset().contains(nb)) by {
                assert(nbrs@.contains(nb)) by { assert(nbrs@[idx as int] == nb); }
            }
            assert(out_targets(edges, node).contains(nb));
            lemma_out_targets_contains(edges, node, nb);
            assert(edges.contains((node, nb)));
            let e = choose|e: int| 0 <= e < edges.len() && edges[e] == (node, nb);
            assert(nb < n) by { assert(dg@.edges[e].0 < n); }
        }
        if nb != node {
            if !visited[nb] {
                let ghost before_visited = visited@;
                let ghost before_cycles = *cycles;
                let ghost before_fin = fin2;
                let r = dfs_cycle_count(dg, nb, visited, on_stack, cycles, Ghost(stack2), Ghost(fin2), Ghost(clock2), Ghost((fuel - 1) as nat));
                proof {
                    lemma_count_false_monotone(old(visited)@, before_visited);
                    assert(stack2.last() == node);
                    fin2 = r@.0;
                    clock2 = r@.1;
                    assert(fin2.contains_key(nb));
                    assert forall|x: int| 0 <= x < old(visited)@.len() && #[trigger] old(visited)@[x] implies visited@[x] by {
                        assert(before_visited[x]);
                    }
                    assert forall|x: usize| #[trigger] fin.contains_key(x) implies fin2.contains_key(x) && fin2[x] == fin[x] by {
                        assert(before_fin.contains_key(x));
                    }
                    assert forall|j: int| 0 <= j < idx + 1 && nbrs@[j] != node implies (*cycles == 0 ==> #[trigger] fin2.contains_key(nbrs@[j])) by {
                        if *cycles == 0 && j < idx {
                            assert(before_cycles == 0);
                            assert(before_fin.contains_key(nbrs@[j]));
                        }
                    }
                    assert forall|x: usize| x < n && x != node implies (#[trigger] on_stack@[x as int] == old(on_stack)@[x as int]) by {}
                }
            } else if on_stack[nb] {
                proof {
                    assert(stack2.contains(nb));
                    let k = choose|k: int| 0 <= k < stack2.len() && stack2[k] == nb;
                    let p = stack2.subrange(k, stack2.len() as int).push(nb);
                    assert(k < stack2.len() - 1) by {
                        if k == stack2.len() - 1 {
                            assert(stack2[k] == node);
                        }
                    }
                    assert forall|i: int| 0 <= i < p.len() - 1 implies p[i] != p[i + 1] && #[trigger] edges.contains((p[i], p[i + 1])) by {
                        if i < p.len() - 2 {
                            assert(p[i] == stack2[k + i] && p[i + 1] == stack2[k + i + 1]);
                        } else {
                            assert(p[i] == stack2[stack2.len() - 1]);
                            assert(p[i] == node);
                        }
                    }
                    assert(is_cycle(edges, p));
                    assert(has_cycle(edges));
                    lemma_pending_monotone(edges, visited@, node);
                }
                *cycles = *cycles + 1;
            } else {
                proof {
                    assert(fin2.contains_key(nb));
                }
            }
        }
        proof {
            assert(dfs_scan(edges, (fuel - 1) as nat, cur, node, nbrs@, idx as int) == dfs_scan(
                edges,
                (fuel - 1) as nat,
                (visited@, on_stack@, *cycles as nat),
                node,
                nbrs@,
                idx + 1,
            ));
        }
        idx = idx + 1;
    }
    let ghost st2 = (visited@, on_stack@, *cycles as nat);
    assert(dfs_scan(edges, (fuel - 1) as nat, st2, node, nbrs@, nbrs.len() as int) == st2);
    on_stack.set(node, false);
    let ghost fin3 = fin2.insert(node, clock2);
    let ghost clock3 = clock2 + 1;
    proof {
        assert forall|x: usize| x < n implies (#[trigger] on_stack@[x as int] <==> stack.contains(x)) by {
            if x != node {
                if stack.contains(x) {
                    let k = choose|k: int| 0 <= k < stack.len() && stack[k] == x;
                    assert(stack2[k] == x);
                }
                if stack2.contains(x) {
                    let k = choose|k: int| 0 <= k < stack2.len() && stack2[k] == x;
                    if k < stack.len() {
                        assert(stack[k] == x);
                    }
                }
            }
        }
        assert forall|i: int| 0 <= i < stack.len() - 1 implies stack[i] != stack[i + 1] && #[trigger] edges.contains(
            (stack[i], stack[i + 1])) by {
            assert(stack[i] == stack2[i] && stack[i + 1] == stack2[i + 1]);
        }
        assert forall|i: int| 0 <= i < stack.len() implies #[trigger] stack[i] < n by {
            assert(stack[i] == stack2[i]);
        }
        if *cycles == 0 {
            assert forall|x: usize, y: usize|
                #[trigger] fin3.contains_key(x) && x != y && #[trigger] edges.contains((x, y)) implies fin3.contains_key(y)
                    && fin3[y] < fin3[x] by {
                if x == node {
                    lemma_out_targets_contains(edges, node, y);
                    assert(out_targets(edges, node).to_multiset().contains(y));
                    assert(nbrs@.contains(y));
                    let j = choose|j: int| 0 <= j < nbrs.len() && nbrs@[j] == y;
                    assert(fin2.contains_key(nbrs@[j]));
                } else {
                    assert(fin2.contains_key(x));
                }
            }
        }
        assert(on_stack@ =~= old(on_stack)@);
    }
    Ghost((fin3, clock3))
}

/// Counts directed cycles by depth-first search from each node in index
/// order, neighbours in increasing order, self-loops skipped: each edge back
/// to a node on the search stack counts one.
pub fn count_cycles(dg: &DependencyGraph) -> (cycles: usize)
    requires
        dg.well_formed(),
    ensures
        cycles == cycle_count(dg@.edges, dg@.nodes.len()),
        cycles > 0 <==> has_cycle(dg@.edges),
        cycles <= dg@.edges.len(),
{
    let n = dg.node_count();
    if n == 0 {
        proof {
            if has_cycle(dg@.edges) {
                let p = choose|p: Seq<usize>| #[trigger] is_cycle(dg@.edges, p);
                assert(dg@.edges.contains((p[0], p[0int + 1])));
                let e = choose|e: int| 0 <= e < dg@.edges.len() && dg@.edges[e] == (p[0], p[0int + 1]);
                assert(dg@.edges[e].0 < 0);
            }
        }
        return 0;
    }
    let ghost edges = dg@.edges;
    let mut visited: Vec<bool> = Vec::new();
    let mut on_stack: Vec<bool> = Vec::new();
    let mut i: usize = 0;
    while i < n
        invariant
            0 <= i <= n,
            visited.len() == i,
            on_stack.len() == i,
            forall|x: int| 0 <= x < i ==> !(#[trigger] visited@[x]),
            forall|x: int| 0 <= x < i ==> !(#[trigger] on_stack@[x]),
        decreases n - i,
    {
        visited.push(false);
        on_stack.push(false);
        i = i + 1;
    }
    let mut cycles: usize = 0;
    let ghost mut fin: Map<usize, nat> = Map::empty();
    let ghost mut clock: nat = 0;
    proof {
        assert forall|e: int| 0 <= e < edges.len() implies #[trigger] edges[e].0 < visited@.len() by {
            assert(dg@.edges[e].0 < n);
        }
        lemma_pending_all(edges, visited@);
        let es = Seq::<usize>::empty();
        assert forall|x: usize| x < n implies (#[trigger] on_stack@[x as int] <==> es.contains(x)) by {}
        assert forall|x: usize| x < n implies (#[trigger] fin.contains_key(x) <==> visited@[x as int] && !on_stack@[x as int]) by {}
        assert(es.no_duplicates());
        assert(cycles + pending(edges, visited@) <= edges.len());
        assert(dfs_state(edges, n as int, visited@, on_stack@, Seq::empty(), fin, clock, cycles as int));
        assert(visited@ =~= Seq::new(n as nat, |i: int| false));
        assert(on_stack@ =~= Seq::new(n as nat, |i: int| false));
    }
    let ghost init = (visited@, on_stack@, 0nat);
    let mut start: usize = 0;
    while start < n
        invariant
            dg.well_formed(),
            edges == dg@.edges,
            n == dg@.nodes.len(),
            0 <= start <= n,
            dfs_state(edges, n as int, visited@, on_stack@, Seq::empty(), fin, clock, cycles as int),
            forall|x: int| 0 <= x < start ==> #[trigger] visited@[x],
            dfs_from(edges, n as nat, init, 0) == dfs_from(edges, n as nat, (visited@, on_stack@, cycles as nat), start as int),
        decreases n - start,
    {
        let ghost cur = (visited@, on_stack@, cycles as nat);
        proof {
            lemma_count_false_le(visited@);
        }
        if !visited[start] {
            let ghost before_visited = visited@;
            let r = dfs_cycle_count(dg, start, &mut visited, &mut on_stack, &mut cycles, Ghost(Seq::empty()), Ghost(fin), Ghost(clock), Ghost(n as nat));
            proof {
                fin = r@.0;
                clock = r@.1;
                assert forall|x: int| 0 <= x < start + 1 implies #[trigger] visited@[x] by {
                    if x < start {
                        assert(before_visited[x]);
                    }
                }
            }
        }
        proof {
            assert(dfs_from(edges, n as nat, cur, start as int) == dfs_from(
                edges,
                n as nat,
                (visited@, on_stack@, cycles as nat),
                start + 1,
            ));
        }
        start = start + 1;
    }
    assert(dfs_from(edges, n as nat, (visited@, on_stack@, cycles as nat), n as int) == (visited@, on_stack@, cycles as nat));
    proof {
        assert forall|x: usize| x < n implies #[trigger] fin.contains_key(x) by {
            assert(visited@[x as int]);
            assert(!on_stack@[x as int]) by {
                if on_stack@[x as int] {
                    assert(Seq::<usize>::empty().contains(x));
                }
            }
        }
        if cycles == 0 && has_cycle(edges) {
            let p = choose|p: Seq<usize>| #[trigger] is_cycle(edges, p);
            assert(edges.contains((p[0], p[0int + 1])));
            let e = choose|e: int| 0 <= e < edges.len() && edges[e] == (p[0], p[0int + 1]);
            assert(dg@.edges[e].0 < n);
            assert(fin.contains_key(p[0]));
            lemma_no_cycle_with_finish_order(edges, n as int, fin, p, p.len() - 1);
        }
        lemma_pending_bound(edges, visited@);
    }
    cycles
}

proof fn lemma_pending_all(edges: Seq<(usize, usize)>, visited: Seq<bool>)
    requires
        forall|x: int| 0 <= x < visited.len() ==> !(#[trigger] visited[x]),
        forall|e: int| 0 <= e < edges.len() ==> #[trigger] edges[e].0 < visited.len(),
    ensures
        pending(edges, visited) == edges.len(),
    decreases edges.len(),
{
    if edges.len() > 0 {
        let d = edges.drop_last();
        assert forall|e: int| 0 <= e < d.len() implies #[trigger] d[e].0 < visited.len() by {
            assert(d[e] == edges[e]);
        }
        lemma_pending_all(d, visited);
        assert(edges.last() == edges[edges.len() - 1]);
    }
}

proof fn lemma_pending_bound(edges: Seq<(usize, usize)>, visited: Seq<bool>)
    ensures
        pending(edges, visited) >= 0,
{
}

/// Along a cycle every step strictly lowers the finish time, which cannot
/// return to the start.
proof fn lemma_no_cycle_with_finish_order(
    edges: Seq<(usize, usize)>,
    n: int,
    fin: Map<usize, nat>,
    p: Seq<usize>,
    k: int,
)
    requires
        is_cycle(edges, p),
        1 <= k < p.len(),
        fin.contains_key(p[0]),
        forall|x: usize, y: usize|
            #[trigger] fin.contains_key(x) && x != y && #[trigger] edges.contains((x, y)) ==> fin.contains_key(y)
                && fin[y] < fin[x],
    ensures
        fin.contains_key(p[k]) && fin[p[k]] < fin[p[0]],
        k == p.len() - 1 ==> false,
    decreases k,
{
    let i = k - 1;
    assert(0 <= i < p.len() - 1);
    assert(edges.contains((p[i], p[i + 1])));
    assert(p[i] != p[i + 1]);
    assert(i + 1 == k);
    if k > 1 {
        lemma_no_cycle_with_finish_order(edges, n, fin, p, k - 1);
    }
}

/// The graph of `k` disjoint mutual imports: edge `e` runs from node `e` to
/// its partner, node `e + 1` for even `e` and `e - 1` for odd `e`.
pub open spec fn paired_edges(k: nat) -> Seq<(usize, usize)> {
    Seq::new(2 * k, |e: int| if e % 2 == 0 { (e as usize, (e + 1) as usize) } else { (e as usize, (e - 1) as usize) })
}

spec fn partner(u: int) -> int {
    if u % 2 == 0 {
        u + 1
    } else {
        u - 1
    }
}

proof fn lemma_paired_out_prefix(k: nat, m: int, u: usize)
    requires
        0 <= m <= 2 * k,
        2 * k <= usize::MAX,
    ensures
        out_targets(paired_edges(k).take(m), u) == (if u < m {
            seq![partner(u as int) as usize]
        } else {
            Seq::<usize>::empty()
        }),
    decreases m,
{
    if m > 0 {
        lemma_paired_out_prefix(k, m - 1, u);
        assert(paired_edges(k).take(m).drop_last() =~= paired_edges(k).take(m - 1));
        assert(paired_edges(k).take(m).last() == paired_edges(k)[m - 1]);
        if u == m - 1 {
            assert(Seq::<usize>::empty().push(partner(u as int) as usize) =~= seq![partner(u as int) as usize]);
        }
    } else {
        assert(paired_edges(k).take(0) =~= Seq::<(usize, usize)>::empty());
    }
}

proof fn lemma_paired_targets(k: nat, u: usize)
    requires
        u < 2 * k,
        2 * k <= usize::MAX,
    ensures
        sorted_targets(paired_edges(k), u) == seq![partner(u as int) as usize],
{
    let e = paired_edges(k);
    lemma_paired_out_prefix(k, (2 * k) as int, u);
    assert(e.take((2 * k) as int) =~= e);
    let t = out_targets(e, u);
    assert(t == seq![partner(u as int) as usize]);
    lemma_index_le_total();
    t.lemma_sort_by_ensures(index_le());
    let r = t.sort_by(index_le());
    assert(r.len() == t.len()) by {
        assert(r.to_multiset().len() == t.to_multiset().len());
    }
    assert(r.contains(r[0]));
    assert(t.contains(r[0]));
    assert(r =~= t);
}

/// The search state after the first `i` pairs: their nodes are visited,
/// nothing is on the stack, and `i` back edges are counted.
spec fn paired_state(k: nat, i: nat) -> (Seq<bool>, Seq<bool>, nat) {
    (Seq::new(2 * k, |j: int| j < 2 * i), Seq::new(2 * k, |j: int| false), i)
}

proof fn lemma_paired_visit(k: nat, i: nat, fuel: nat)
    requires
        i < k,
        fuel >= 2,
        2 * k <= usize::MAX,
    ensures
        dfs_visit(paired_edges(k), fuel, paired_state(k, i), (2 * i) as usize) == paired_state(k, i + 1),
{
    let e = paired_edges(k);
    let st = paired_state(k, i);
    let u = (2 * i) as usize;
    let v = (2 * i + 1) as usize;
    lemma_paired_targets(k, u);
    lemma_paired_targets(k, v);
    assert(partner(u as int) == v);
    assert(partner(v as int) == u);
    let st1 = (st.0.update(u as int, true), st.1.update(u as int, true), st.2);
    let st1b = (st1.0.update(v as int, true), st1.1.update(v as int, true), st1.2);
    let counted = (st1b.0, st1b.1, st1b.2 + 1);
    assert(dfs_scan(e, (fuel - 2) as nat, counted, v, seq![u], 1) == counted);
    assert(dfs_scan(e, (fuel - 2) as nat, st1b, v, seq![u], 0) == counted);
    let inner = (counted.0, counted.1.update(v as int, false), counted.2);
    assert(dfs_visit(e, (fuel - 1) as nat, st1, v) == inner);
    assert(dfs_scan(e, (fuel - 1) as nat, inner, u, seq![v], 1) == inner);
    assert(dfs_scan(e, (fuel - 1) as nat, st1, u, seq![v], 0) == inner);
    let out = (inner.0, inner.1.update(u as int, false), inner.2);
    assert(dfs_visit(e, fuel, st, u) == out);
    let target = paired_state(k, i + 1);
    assert(out.0 =~= target.0);
    assert(out.1 =~= target.1);
}

proof fn lemma_paired_from(k: nat, i: nat)
    requires
        i <= k,
        2 * k <= usize::MAX,
    ensures
        dfs_from(paired_edges(k), (2 * k) as nat, paired_state(k, i), (2 * i) as int).2 == k,
    decreases k - i,
{
    let e = paired_edges(k);
    let n = (2 * k) as nat;
    if i < k {
        let st = paired_state(k, i);
        lemma_paired_visit(k, i, n);
        let next = paired_state(k, i + 1);
        assert(dfs_from(e, n, st, (2 * i) as int) == dfs_from(e, n, next, (2 * i + 1) as int));
        assert(next.0[(2 * i + 1) as int]);
        assert(dfs_from(e, n, next, (2 * i + 1) as int) == dfs_from(e, n, next, (2 * (i + 1)) as int));
        lemma_paired_from(k, i + 1);
    }
}

/// Every back edge counts once, however many came before: a graph of `k`
/// disjoint pairs of files that import each other has exactly `k` cycles.
pub proof fn lemma_disjoint_pairs_count(k: nat)
    requires
        2 * k <= usize::MAX,
    ensures
        cycle_count(paired_edges(k), (2 * k) as nat) == k,
{
    let n = (2 * k) as nat;
    let init = (Seq::new(n, |i: int| false), Seq::new(n, |i: int| false), 0nat);
    assert(init.0 =~= paired_state(k, 0).0);
    assert(init.1 =~= paired_state(k, 0).1);
    assert(init == paired_state(k, 0));
    lemma_paired_from(k, 0);
}

/// A search counts back edges by adding one for each, whatever it has
/// counted before: searching from a state with `c` back edges already
/// counted marks the same nodes and ends with `c` more than searching from
/// the same state with none counted.
pub proof fn lemma_visit_counts_from_any_start(
    edges: Seq<(usize, usize)>,
    fuel: nat,
    visited: Seq<bool>,
    on_stack: Seq<bool>,
    c: nat,
    u: usize,
)
    ensures
        dfs_visit(edges, fuel, (visited, on_stack, c), u).0 == dfs_visit(edges, fuel, (visited, on_stack, 0), u).0,
        dfs_visit(edges, fuel, (visited, on_stack, c), u).1 == dfs_visit(edges, fuel, (visited, on_stack, 0), u).1,
        dfs_visit(edges, fuel, (visited, on_stack, c), u).2 == c + dfs_visit(edges, fuel, (visited, on_stack, 0), u).2,
    decreases fuel, 0int,
{
    if fuel > 0 {
        let v1 = visited.update(u as int, true);
        let s1 = on_stack.update(u as int, true);
        lemma_scan_counts_from_any_start(edges, (fuel - 1) as nat, v1, s1, c, u, sorted_targets(edges, u), 0);
    }
}

/// The scan of a node's targets adds the same count whatever was counted
/// before it.
pub proof fn lemma_scan_counts_from_any_start(
    edges: Seq<(usize, usize)>,
    fuel: nat,
    visited: Seq<bool>,
    on_stack: Seq<bool>,
    c: nat,
    u: usize,
    nbrs: Seq<usize>,
    k: int,
)
    ensures
        dfs_scan(edges, fuel, (visited, on_stack, c), u, nbrs, k).0 == dfs_scan(edges, fuel, (visited, on_stack, 0), u, nbrs, k).0,
        dfs_scan(edges, fuel, (visited, on_stack, c), u, nbrs, k).1 == dfs_scan(edges, fuel, (visited, on_stack, 0), u, nbrs, k).1,
        dfs_scan(edges, fuel, (visited, on_stack, c), u, nbrs, k).2 == c + dfs_scan(edges, fuel, (visited, on_stack, 0), u, nbrs, k).2,
    decreases fuel, nbrs.len() - k,
{
    if 0 <= k < nbrs.len() {
        let v = nbrs[k];
        let st_c = (visited, on_stack, c);
        let st_0 = (visited, on_stack, 0nat);
        if v == u {
            lemma_scan_counts_from_any_start(edges, fuel, visited, on_stack, c, u, nbrs, k + 1);
        } else if !visited[v as int] {
            lemma_visit_counts_from_any_start(edges, fuel, visited, on_stack, c, v);
            let y = dfs_visit(edges, fuel, st_0, v);
            lemma_scan_counts_from_any_start(edges, fuel, y.0, y.1, c + y.2, u, nbrs, k + 1);
            lemma_scan_counts_from_any_start(edges, fuel, y.0, y.1, y.2, u, nbrs, k + 1);
            assert(dfs_visit(edges, fuel, st_c, v) == (y.0, y.1, c + y.2));
            assert(y == (y.0, y.1, y.2));
        } else if on_stack[v as int] {
            lemma_scan_counts_from_any_start(edges, fuel, visited, on_stack, c + 1, u, nbrs, k + 1);
            lemma_scan_counts_from_any_start(edges, fuel, visited, on_stack, 1, u, nbrs, k + 1);
        } else {
            lemma_scan_counts_from_any_start(edges, fuel, visited, on_stack, c, u, nbrs, k + 1);
        }
    }
}

} // verus!
