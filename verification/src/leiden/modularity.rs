//! Incrementally maintained per-community counts for the local move phase:
//! taking one node out of its community and putting it into another changes
//! only the counts of the communities involved.
use vstd::prelude::*;
use crate::leiden::graph::{lengths, seq_sum, LeidenGraph};
use crate::partition::strictly_increasing;
use crate::leiden::tally::{
    count_up, edges_to_community, lemma_prefix_le, lemma_tallies_bounded, links_into, tally_degree, tally_inner,
    tally_size, tally_vectors,
};

verus! {

/// The community of every node together with the counts from which move
/// gains are computed, indexed by community ID.
#[derive(Debug, Clone)]
pub struct ModularityState {
    /// `assignment[node]`: the current community of `node`.
    pub assignment: Vec<usize>,
    /// `sigma_tot[c]`: the sum of the degrees of the nodes in community `c`.
    pub sigma_tot: Vec<i64>,
    /// `inner_edges[c]`: the number of edges with both ends in community `c`.
    pub inner_edges: Vec<i64>,
    /// `size[c]`: the number of nodes in community `c`.
    pub size: Vec<usize>,
}

impl ModularityState {
    /// The number of community IDs the state has room for.
    pub open spec fn capacity(&self) -> int {
        self.size.len() as int
    }

    /// Every count of community `c` equals the count taken from scratch
    /// over the current assignment.
    pub open spec fn holds_counts_of(&self, g: LeidenGraph, c: int) -> bool {
        let a = self.assignment@;
        &&& self.size@[c] == tally_size(a, c as usize, g.n as int)
        &&& self.sigma_tot@[c] == tally_degree(g.adj@, a, c as usize, g.n as int)
        &&& self.inner_edges@[c] == tally_inner(g.adj@, a, c as usize, g.n as int)
    }

    /// The state fits graph `g` (one assignment entry per node, room for every
    /// node ID and every community used) and holds the exact counts of every
    /// community except the one with ID `skip`.
    pub open spec fn holds_counts_except(&self, g: LeidenGraph, skip: int) -> bool {
        &&& self.assignment.len() == g.n
        &&& self.sigma_tot.len() == self.size.len()
        &&& self.inner_edges.len() == self.size.len()
        &&& g.n <= self.capacity()
        &&& forall|i: int| 0 <= i < g.n ==> #[trigger] self.assignment@[i] < self.capacity()
        &&& forall|c: int| 0 <= c < self.capacity() && c != skip ==> #[trigger] self.holds_counts_of(g, c)
    }

    /// The state holds the exact counts of every community.
    pub open spec fn holds_counts(&self, g: LeidenGraph) -> bool {
        self.holds_counts_except(g, -1)
    }
}

/// `after` is `before` with `node` taken out of its community `c`: the edges
/// from `node` into `c` (`k` of them), its degree and the node itself are
/// subtracted from the counts of `c`, and `node` is placed alone under its
/// own ID, whose degree sum and size are set to those of `node` alone.
pub open spec fn removal(before: ModularityState, after: ModularityState, g: LeidenGraph, node: int, k: int) -> bool {
    let a = before.assignment@;
    let c = a[node] as int;
    let d = g.degree@[node] as int;
    &&& k == links_into(g.adj@[node]@, a, a[node])
    &&& after.assignment@ == a.update(node, node as usize)
    &&& after.inner_edges@ == before.inner_edges@.update(c, (before.inner_edges@[c] - k) as i64)
    &&& after.sigma_tot@ == before.sigma_tot@.update(c, (before.sigma_tot@[c] - d) as i64).update(node, d as i64)
    &&& after.size@ == before.size@.update(c, (before.size@[c] - 1) as usize).update(node, 1usize)
}

/// `after` is `before` with `node` put into community `to`: the edges from
/// `node` into `to`, its degree and the node itself are added to the counts
/// of `to`.
pub open spec fn addition(before: ModularityState, after: ModularityState, g: LeidenGraph, node: int, to: int) -> bool {
    let a = before.assignment@;
    let k = links_into(g.adj@[node]@, a, to as usize) as int;
    let d = g.degree@[node] as int;
    &&& after.assignment@ == a.update(node, to as usize)
    &&& after.inner_edges@ == before.inner_edges@.update(to, (before.inner_edges@[to] + k) as i64)
    &&& after.sigma_tot@ == before.sigma_tot@.update(to, (before.sigma_tot@[to] + d) as i64)
    &&& after.size@ == before.size@.update(to, (before.size@[to] + 1) as usize)
}

proof fn lemma_links_into_le(row: Seq<usize>, a: Seq<usize>, to: usize)
    ensures
        links_into(row, a, to) <= row.len(),
    decreases row.len(),
{
    if row.len() > 0 {
        lemma_links_into_le(row.drop_last(), a, to);
    }
}

proof fn lemma_degree_le_total(g: LeidenGraph, u: int)
    requires
        g.well_formed(),
        0 <= u < g.n,
    ensures
        g.degree@[u] <= 2 * g.total_weight,
{
    let adj = g.adj@;
    lemma_prefix_le(adj, u + 1);
    lemma_prefix_nonneg(adj, u);
    assert(lengths(adj.take(u + 1)).drop_last() =~= lengths(adj.take(u)));
}

proof fn lemma_prefix_nonneg(adj: Seq<Vec<usize>>, i: int)
    requires
        0 <= i <= adj.len(),
    ensures
        seq_sum(lengths(adj.take(i))) >= 0,
    decreases i,
{
    if i > 0 {
        lemma_prefix_nonneg(adj, i - 1);
        assert(lengths(adj.take(i)).drop_last() =~= lengths(adj.take(i - 1)));
    }
}


/// The number of entries `v` of row `row` with `v < u` in community `c`.
pub open spec fn count_down(row: Seq<usize>, u: int, a: Seq<usize>, c: usize) -> nat
    decreases row.len(),
{
    if row.len() == 0 {
        0
    } else {
        count_down(row.drop_last(), u, a, c) + (if row.last() < u && a[row.last() as int] == c {
            1nat
        } else {
            0nat
        })
    }
}

/// The entries `v < i` of `row` counted by `count_down`.
spec fn down_below(row: Seq<usize>, u: int, a: Seq<usize>, c: usize, i: int) -> nat
    decreases row.len(),
{
    if row.len() == 0 {
        0
    } else {
        down_below(row.drop_last(), u, a, c, i) + (if row.last() < i && row.last() < u && a[row.last() as int]
            == c {
            1nat
        } else {
            0nat
        })
    }
}

/// The number of IDs `j < i` below `u` in community `c` that `row` contains.
spec fn range_hits(row: Seq<usize>, u: int, a: Seq<usize>, c: usize, i: int) -> nat
    decreases i,
{
    if i <= 0 {
        0
    } else {
        range_hits(row, u, a, c, i - 1) + (if i - 1 < u && a[i - 1] == c && row.contains((i - 1) as usize) {
            1nat
        } else {
            0nat
        })
    }
}

/// The number of nodes `j < i` below `u` in community `c` whose rows contain `u`.
spec fn up_hits(adj: Seq<Vec<usize>>, a: Seq<usize>, c: usize, u: int, i: int) -> nat
    decreases i,
{
    if i <= 0 {
        0
    } else {
        up_hits(adj, a, c, u, i - 1) + (if i - 1 < u && a[i - 1] == c && adj[i - 1]@.contains(u as usize) {
            1nat
        } else {
            0nat
        })
    }
}

proof fn lemma_move_size(a: Seq<usize>, u: int, y: usize, c: usize, i: int)
    requires
        0 <= u < a.len(),
        0 <= i <= a.len(),
    ensures
        tally_size(a.update(u, y), c, i) + (if u < i && a[u] == c { 1int } else { 0int }) == tally_size(a, c, i)
            + (if u < i && y == c { 1int } else { 0int }),
    decreases i,
{
    if i > 0 {
        lemma_move_size(a, u, y, c, i - 1);
    }
}

proof fn lemma_move_degree(adj: Seq<Vec<usize>>, a: Seq<usize>, u: int, y: usize, c: usize, i: int)
    requires
        0 <= u < a.len(),
        0 <= i <= a.len(),
    ensures
        tally_degree(adj, a.update(u, y), c, i) + (if u < i && a[u] == c { adj[u]@.len() as int } else { 0int })
            == tally_degree(adj, a, c, i) + (if u < i && y == c { adj[u]@.len() as int } else { 0int }),
    decreases i,
{
    if i > 0 {
        lemma_move_degree(adj, a, u, y, c, i - 1);
    }
}

proof fn lemma_count_up_move(row: Seq<usize>, j: int, a: Seq<usize>, u: int, y: usize, c: usize)
    requires
        strictly_increasing(row),
        forall|x: int| 0 <= x < row.len() ==> #[trigger] row[x] < a.len(),
        0 <= u < a.len(),
        u <= usize::MAX,
    ensures
        count_up(row, j, a.update(u, y), c) + (if row.contains(u as usize) && u > j && a[u] == c { 1int } else { 0int })
            == count_up(row, j, a, c) + (if row.contains(u as usize) && u > j && y == c { 1int } else { 0int }),
    decreases row.len(),
{
    if row.len() > 0 {
        let r = row.drop_last();
        assert forall|x: int| 0 <= x < r.len() implies #[trigger] r[x] < a.len() by {
            assert(r[x] == row[x]);
        }
        lemma_count_up_move(r, j, a, u, y, c);
        let v = row.last();
        if v == u {
            assert(row.contains(u as usize)) by {
                assert(row[row.len() - 1] == v);
            }
            assert(!r.contains(u as usize)) by {
                if r.contains(u as usize) {
                    let x = choose|x: int| 0 <= x < r.len() && r[x] == u as usize;
                    assert(row[x] < row[row.len() - 1]);
                }
            }
        } else {
            assert(row.contains(u as usize) == r.contains(u as usize)) by {
                if row.contains(u as usize) {
                    let x = choose|x: int| 0 <= x < row.len() && row[x] == u as usize;
                    assert(x != row.len() - 1);
                    assert(r[x] == u as usize);
                }
                if r.contains(u as usize) {
                    let x = choose|x: int| 0 <= x < r.len() && r[x] == u as usize;
                    assert(row[x] == u as usize);
                }
            }
        }
    }
}

proof fn lemma_links_split(row: Seq<usize>, u: int, a: Seq<usize>, c: usize)
    requires
        forall|x: int| 0 <= x < row.len() ==> #[trigger] row[x] != u,
    ensures
        links_into(row, a, c) == count_up(row, u, a, c) + count_down(row, u, a, c),
    decreases row.len(),
{
    if row.len() > 0 {
        let r = row.drop_last();
        assert forall|x: int| 0 <= x < r.len() implies #[trigger] r[x] != u by {
            assert(r[x] == row[x]);
        }
        lemma_links_split(r, u, a, c);
        assert(row[row.len() - 1] != u);
    }
}

proof fn lemma_down_below_step(row: Seq<usize>, u: int, a: Seq<usize>, c: usize, i: int)
    requires
        strictly_increasing(row),
        0 <= i <= usize::MAX,
    ensures
        down_below(row, u, a, c, i + 1) == down_below(row, u, a, c, i) + (if i < u && a[i] == c && row.contains(
            i as usize,
        ) {
            1nat
        } else {
            0nat
        }),
    decreases row.len(),
{
    if row.len() > 0 {
        let r = row.drop_last();
        lemma_down_below_step(r, u, a, c, i);
        let v = row.last();
        if v == i {
            assert(row.contains(i as usize)) by {
                assert(row[row.len() - 1] == v);
            }
            assert(!r.contains(i as usize)) by {
                if r.contains(i as usize) {
                    let x = choose|x: int| 0 <= x < r.len() && r[x] == i as usize;
                    assert(row[x] < row[row.len() - 1]);
                }
            }
        } else {
            assert(row.contains(i as usize) == r.contains(i as usize)) by {
                if row.contains(i as usize) {
                    let x = choose|x: int| 0 <= x < row.len() && row[x] == i as usize;
                    assert(x != row.len() - 1);
                    assert(r[x] == i as usize);
                }
                if r.contains(i as usize) {
                    let x = choose|x: int| 0 <= x < r.len() && r[x] == i as usize;
                    assert(row[x] == i as usize);
                }
            }
        }
    }
}

proof fn lemma_range_hits_below(row: Seq<usize>, u: int, a: Seq<usize>, c: usize, i: int)
    requires
        strictly_increasing(row),
        0 <= i <= usize::MAX + 1,
    ensures
        range_hits(row, u, a, c, i) == down_below(row, u, a, c, i),
    decreases i,
{
    if i > 0 {
        lemma_range_hits_below(row, u, a, c, i - 1);
        lemma_down_below_step(row, u, a, c, i - 1);
    } else {
        lemma_down_below_zero(row, u, a, c, i);
    }
}

proof fn lemma_down_below_zero(row: Seq<usize>, u: int, a: Seq<usize>, c: usize, i: int)
    requires
        i <= 0,
    ensures
        down_below(row, u, a, c, i) == 0,
    decreases row.len(),
{
    if row.len() > 0 {
        lemma_down_below_zero(row.drop_last(), u, a, c, i);
    }
}

proof fn lemma_down_below_all(row: Seq<usize>, u: int, a: Seq<usize>, c: usize, n: int)
    requires
        forall|x: int| 0 <= x < row.len() ==> #[trigger] row[x] < n,
    ensures
        down_below(row, u, a, c, n) == count_down(row, u, a, c),
    decreases row.len(),
{
    if row.len() > 0 {
        let r = row.drop_last();
        assert forall|x: int| 0 <= x < r.len() implies #[trigger] r[x] < n by {
            assert(r[x] == row[x]);
        }
        lemma_down_below_all(r, u, a, c, n);
        assert(row[row.len() - 1] < n);
    }
}

proof fn lemma_up_hits_range(g: LeidenGraph, a: Seq<usize>, c: usize, u: int, i: int)
    requires
        g.well_formed(),
        0 <= u < g.n,
        0 <= i <= g.n,
    ensures
        up_hits(g.adj@, a, c, u, i) == range_hits(g.adj@[u]@, u, a, c, i),
    decreases i,
{
    if i > 0 {
        lemma_up_hits_range(g, a, c, u, i - 1);
        let j = i - 1;
        assert(g.adj@[j]@.contains(u as usize) == g.adj@[u]@.contains(j as usize));
    }
}

proof fn lemma_up_hits_count_down(g: LeidenGraph, a: Seq<usize>, c: usize, u: int)
    requires
        g.well_formed(),
        0 <= u < g.n,
    ensures
        up_hits(g.adj@, a, c, u, g.n as int) == count_down(g.adj@[u]@, u, a, c),
{
    let row = g.adj@[u]@;
    lemma_up_hits_range(g, a, c, u, g.n as int);
    lemma_range_hits_below(row, u, a, c, g.n as int);
    assert forall|x: int| 0 <= x < row.len() implies #[trigger] row[x] < g.n by {}
    lemma_down_below_all(row, u, a, c, g.n as int);
}

proof fn lemma_move_inner_upto(g: LeidenGraph, a: Seq<usize>, u: int, y: usize, c: usize, i: int)
    requires
        g.well_formed(),
        a.len() == g.n,
        0 <= u < g.n,
        0 <= i <= g.n,
    ensures
        ({
            let d = (if u < i { count_up(g.adj@[u]@, u, a, c) as int } else { 0int }) + up_hits(g.adj@, a, c, u, i);
            tally_inner(g.adj@, a.update(u, y), c, i) + (if a[u] == c { d } else { 0int }) == tally_inner(g.adj@, a, c, i)
                + (if y == c { d } else { 0int })
        }),
    decreases i,
{
    if i > 0 {
        lemma_move_inner_upto(g, a, u, y, c, i - 1);
        let j = i - 1;
        let b = a.update(u, y);
        let row = g.adj@[j]@;
        assert forall|x: int| 0 <= x < row.len() implies #[trigger] row[x] < a.len() by {}
        lemma_count_up_move(row, j, a, u, y, c);
        if j == u {
            assert(!row.contains(u as usize)) by {
                if row.contains(u as usize) {
                    let x = choose|x: int| 0 <= x < row.len() && row[x] == u as usize;
                }
            }
        }
    }
}

/// How the inner-edge count of community `c` changes when node `u` moves
/// from its community to community `y`.
proof fn lemma_move_inner(g: LeidenGraph, a: Seq<usize>, u: int, y: usize, c: usize)
    requires
        g.well_formed(),
        a.len() == g.n,
        0 <= u < g.n,
    ensures
        tally_inner(g.adj@, a.update(u, y), c, g.n as int) + (if a[u] == c { links_into(g.adj@[u]@, a, c) as int } else { 0int })
            == tally_inner(g.adj@, a, c, g.n as int) + (if y == c { links_into(g.adj@[u]@, a, c) as int } else { 0int }),
{
    lemma_move_inner_upto(g, a, u, y, c, g.n as int);
    lemma_up_hits_count_down(g, a, c, u);
    let row = g.adj@[u]@;
    assert forall|x: int| 0 <= x < row.len() implies #[trigger] row[x] != u by {}
    lemma_links_split(row, u, a, c);
}

proof fn lemma_count_up_none(row: Seq<usize>, u: int, a: Seq<usize>, c: usize)
    requires
        forall|x: int| 0 <= x < row.len() ==> a[#[trigger] row[x] as int] != c,
    ensures
        count_up(row, u, a, c) == 0,
    decreases row.len(),
{
    if row.len() > 0 {
        let r = row.drop_last();
        assert forall|x: int| 0 <= x < r.len() implies a[#[trigger] r[x] as int] != c by {
            assert(r[x] == row[x]);
        }
        lemma_count_up_none(r, u, a, c);
        assert(a[row[row.len() - 1] as int] != c);
    }
}

proof fn lemma_links_none(row: Seq<usize>, a: Seq<usize>, c: usize)
    requires
        forall|x: int| 0 <= x < row.len() ==> a[#[trigger] row[x] as int] != c,
    ensures
        links_into(row, a, c) == 0,
    decreases row.len(),
{
    if row.len() > 0 {
        let r = row.drop_last();
        assert forall|x: int| 0 <= x < r.len() implies a[#[trigger] r[x] as int] != c by {
            assert(r[x] == row[x]);
        }
        lemma_links_none(r, a, c);
        assert(a[row[row.len() - 1] as int] != c);
    }
}

/// The counts of a community whose only member is `u`.
proof fn lemma_lone_counts(g: LeidenGraph, a: Seq<usize>, u: int, i: int)
    requires
        g.well_formed(),
        a.len() == g.n,
        0 <= u < g.n,
        0 <= i <= g.n,
        forall|j: int| 0 <= j < g.n && j != u ==> #[trigger] a[j] != a[u],
    ensures
        tally_size(a, a[u], i) == (if u < i { 1int } else { 0int }),
        tally_degree(g.adj@, a, a[u], i) == (if u < i { g.degree@[u] as int } else { 0int }),
        tally_inner(g.adj@, a, a[u], i) == 0,
    decreases i,
{
    if i > 0 {
        lemma_lone_counts(g, a, u, i - 1);
        if i - 1 == u {
            let row = g.adj@[u]@;
            assert forall|x: int| 0 <= x < row.len() implies a[#[trigger] row[x] as int] != a[u] by {
                assert(row[x] < g.n && row[x] != u);
            }
            lemma_count_up_none(row, u, a, a[u]);
        }
    }
}

proof fn lemma_tally_within(g: LeidenGraph, a: Seq<usize>, c: usize)
    requires
        g.well_formed(),
        a.len() == g.n,
    ensures
        tally_size(a, c, g.n as int) <= g.n,
        tally_degree(g.adj@, a, c, g.n as int) <= 2 * g.total_weight,
        tally_inner(g.adj@, a, c, g.n as int) <= 2 * g.total_weight,
{
    let adj = g.adj@;
    lemma_tallies_bounded(adj, a, c, g.n as int);
    lemma_prefix_le(adj, g.n as int);
}

/// Taking a node out of its community keeps the counts of every community,
/// except the one named by the node's own ID, equal to the counts taken from
/// scratch over the new assignment: only the community the node left changes,
/// and it loses exactly the node, its degree and its edges into it.
pub proof fn lemma_removal_keeps_counts(before: ModularityState, after: ModularityState, g: LeidenGraph, node: int, k: int)
    requires
        g.well_formed(),
        0 <= node < g.n,
        before.holds_counts_except(g, node),
        removal(before, after, g, node, k),
    ensures
        after.holds_counts_except(g, node),
{
    let a = before.assignment@;
    let b = after.assignment@;
    let x = a[node];
    assert(b =~= a.update(node, node as usize));
    assert forall|i: int| 0 <= i < g.n implies #[trigger] after.assignment@[i] < after.capacity() by {
        assert(a[i] < before.capacity());
    }
    assert forall|c: int| 0 <= c < after.capacity() && c != node implies #[trigger] after.holds_counts_of(g, c) by {
        assert(before.holds_counts_of(g, c));
        lemma_move_size(a, node, node as usize, c as usize, g.n as int);
        lemma_move_degree(g.adj@, a, node, node as usize, c as usize, g.n as int);
        lemma_move_inner(g, a, node, node as usize, c as usize);
    }
}

/// Putting a node that stands alone under its own ID into a community keeps
/// the counts of every community, except the one named by the node's own ID,
/// equal to the counts taken from scratch over the new assignment: the
/// receiving community gains exactly the node, its degree and its edges into it.
pub proof fn lemma_addition_keeps_counts(before: ModularityState, after: ModularityState, g: LeidenGraph, node: int, to: int)
    requires
        g.well_formed(),
        2 * g.total_weight <= i64::MAX,
        0 <= node < g.n,
        0 <= to < before.capacity(),
        before.holds_counts_except(g, node),
        before.assignment@[node] == node,
        addition(before, after, g, node, to),
    ensures
        after.holds_counts_except(g, node),
{
    let a = before.assignment@;
    let b = after.assignment@;
    assert(b =~= a.update(node, to as usize));
    assert forall|i: int| 0 <= i < g.n implies #[trigger] after.assignment@[i] < after.capacity() by {
        assert(a[i] < before.capacity());
    }
    assert forall|c: int| 0 <= c < after.capacity() && c != node implies #[trigger] after.holds_counts_of(g, c) by {
        assert(before.holds_counts_of(g, c));
        lemma_move_size(a, node, to as usize, c as usize, g.n as int);
        lemma_move_degree(g.adj@, a, node, to as usize, c as usize, g.n as int);
        lemma_move_inner(g, a, node, to as usize, c as usize);
        lemma_tally_within(g, b, c as usize);
    }
}

/// Taking a node out of its community keeps every count exact when no other
/// node is in the community named by the node's own ID.
pub proof fn lemma_removal_to_free_id(before: ModularityState, after: ModularityState, g: LeidenGraph, node: int, k: int)
    requires
        g.well_formed(),
        2 * g.total_weight <= i64::MAX,
        0 <= node < g.n,
        before.holds_counts(g),
        forall|j: int| 0 <= j < g.n && j != node ==> #[trigger] before.assignment@[j] != node,
        removal(before, after, g, node, k),
    ensures
        after.holds_counts(g),
{
    let a = before.assignment@;
    let b = after.assignment@;
    assert(b =~= a.update(node, node as usize));
    lemma_removal_keeps_counts(before, after, g, node, k);
    assert(before.holds_counts_of(g, node));
    assert forall|j: int| 0 <= j < g.n && j != node implies #[trigger] b[j] != b[node] by {
        assert(b[j] == a[j]);
    }
    lemma_lone_counts(g, b, node, g.n as int);
    lemma_degree_le_total(g, node);
    if a[node] == node {
        let row = g.adj@[node]@;
        assert forall|x: int| 0 <= x < row.len() implies a[#[trigger] row[x] as int] != a[node] by {
            assert(row[x] < g.n && row[x] != node);
        }
        lemma_links_none(row, a, a[node]);
        assert(b =~= a);
    } else {
        lemma_move_inner(g, a, node, node as usize, node as usize);
        let row = g.adj@[node]@;
        assert forall|x: int| 0 <= x < row.len() implies a[#[trigger] row[x] as int] != node as usize by {
            assert(row[x] < g.n && row[x] != node);
        }
        lemma_links_none(row, a, node as usize);
        lemma_lone_counts(g, a.update(node, node as usize), node, g.n as int);
        assert(tally_inner(g.adj@, a, node as usize, g.n as int) == 0);
        assert(after.inner_edges@[node] == before.inner_edges@[node]);
    }
    assert(after.holds_counts_of(g, node));
}

fn signed_copy(v: &Vec<usize>) -> (w: Vec<i64>)
    requires
        forall|c: int| 0 <= c < v.len() ==> #[trigger] v@[c] <= i64::MAX,
    ensures
        w.len() == v.len(),
        forall|c: int| 0 <= c < v.len() ==> #[trigger] w@[c] == v@[c],
{
    let mut w: Vec<i64> = Vec::new();
    let mut c: usize = 0;
    while c < v.len()
        invariant
            0 <= c <= v.len(),
            w.len() == c,
            forall|d: int| 0 <= d < v.len() ==> #[trigger] v@[d] <= i64::MAX,
            forall|d: int| 0 <= d < c ==> #[trigger] w@[d] == v@[d],
        decreases v.len() - c,
    {
        w.push(v[c] as i64);
        c = c + 1;
    }
    w
}

impl ModularityState {
    /// Builds the state of `assignment` on `graph`, with room for the
    /// community IDs below `max_comm` and for every node ID (so that a node
    /// can be placed alone under its own ID).
    pub fn from_assignment(graph: &LeidenGraph, assignment: Vec<usize>, max_comm: usize) -> (s: Self)
        requires
            graph.well_formed(),
            assignment.len() == graph.n,
            forall|i: int| 0 <= i < assignment.len() ==> #[trigger] assignment@[i] < max_comm,
            2 * graph.total_weight <= usize::MAX,
            2 * graph.total_weight <= i64::MAX,
        ensures
            s.assignment@ == assignment@,
            s.capacity() == (if max_comm >= graph.n { max_comm as int } else { graph.n as int }),
            s.holds_counts(*graph),
    {
        let n = graph.n;
        let capacity = if max_comm >= n { max_comm } else { n };
        let (size, inner, degree_sum) = tally_vectors(graph, &assignment, capacity);
        proof {
            let adj = graph.adj@;
            lemma_prefix_le(adj, adj.len() as int);
            assert(adj.take(adj.len() as int) =~= adj);
            assert forall|c: int| 0 <= c < capacity implies #[trigger] inner@[c] <= i64::MAX by {
                lemma_tallies_bounded(adj, assignment@, c as usize, adj.len() as int);
            }
            assert forall|c: int| 0 <= c < capacity implies #[trigger] degree_sum@[c] <= i64::MAX by {
                lemma_tallies_bounded(adj, assignment@, c as usize, adj.len() as int);
            }
        }
        let sigma_tot = signed_copy(&degree_sum);
        let inner_edges = signed_copy(&inner);
        let s = ModularityState { assignment, sigma_tot, inner_edges, size };
        assert forall|c: int| 0 <= c < s.capacity() && c != -1 implies #[trigger] s.holds_counts_of(*graph, c) by {
            assert(inner_edges@[c] == inner@[c]);
            assert(sigma_tot@[c] == degree_sum@[c]);
        }
        s
    }

    /// Takes `node` out of its community and places it alone under its own
    /// ID; returns the number of edges from `node` into the community it left.
    pub fn remove_node(&mut self, graph: &LeidenGraph, node: usize) -> (k_in: usize)
        requires
            graph.well_formed(),
            2 * graph.total_weight <= i64::MAX,
            node < graph.n,
            old(self).assignment.len() == graph.n,
            node < old(self).capacity(),
            old(self).sigma_tot.len() == old(self).size.len(),
            old(self).inner_edges.len() == old(self).size.len(),
            old(self).assignment@[node as int] < old(self).capacity(),
            old(self).size@[old(self).assignment@[node as int] as int] >= 1,
            old(self).inner_edges@[old(self).assignment@[node as int] as int] - graph.degree@[node as int] >= i64::MIN,
            old(self).sigma_tot@[old(self).assignment@[node as int] as int] - graph.degree@[node as int] >= i64::MIN,
        ensures
            removal(*old(self), *final(self), *graph, node as int, k_in as int),
    {
        let comm = self.assignment[node];
        let k_in = edges_to_community(graph, node, comm, &self.assignment);
        let deg = graph.degree[node];
        proof {
            lemma_links_into_le(graph.adj@[node as int]@, self.assignment@, comm);
            lemma_degree_le_total(*graph, node as int);
        }
        let inner = self.inner_edges[comm];
        self.inner_edges.set(comm, inner - k_in as i64);
        let sigma = self.sigma_tot[comm];
        self.sigma_tot.set(comm, sigma - deg as i64);
        let members = self.size[comm];
        self.size.set(comm, members - 1);
        self.assignment.set(node, node);
        self.sigma_tot.set(node, deg as i64);
        self.size.set(node, 1);
        k_in
    }

    /// Puts `node` into community `to`.
    pub fn add_node(&mut self, graph: &LeidenGraph, node: usize, to: usize)
        requires
            graph.well_formed(),
            2 * graph.total_weight <= i64::MAX,
            node < graph.n,
            old(self).assignment.len() == graph.n,
            to < old(self).capacity(),
            old(self).sigma_tot.len() == old(self).size.len(),
            old(self).inner_edges.len() == old(self).size.len(),
            old(self).size@[to as int] < usize::MAX,
            old(self).inner_edges@[to as int] + graph.degree@[node as int] <= i64::MAX,
            old(self).sigma_tot@[to as int] + graph.degree@[node as int] <= i64::MAX,
        ensures
            addition(*old(self), *final(self), *graph, node as int, to as int),
    {
        let k = edges_to_community(graph, node, to, &self.assignment);
        let deg = graph.degree[node];
        proof {
            lemma_links_into_le(graph.adj@[node as int]@, self.assignment@, to);
            lemma_degree_le_total(*graph, node as int);
        }
        let inner = self.inner_edges[to];
        self.inner_edges.set(to, inner + k as i64);
        let sigma = self.sigma_tot[to];
        self.sigma_tot.set(to, sigma + deg as i64);
        let members = self.size[to];
        self.size.set(to, members + 1);
        self.assignment.set(node, to);
    }
}

} // verus!
