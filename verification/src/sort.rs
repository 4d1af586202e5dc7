//! Sorting small index lists.
use vstd::prelude::*;

verus! {

broadcast use vstd::seq_lib::group_to_multiset_ensures;

/// `v` is in non-decreasing order.
pub open spec fn sorted(v: Seq<usize>) -> bool {
    forall|i: int, j: int| 0 <= i <= j < v.len() ==> v[i] <= v[j]
}

/// Returns the elements of `v` in non-decreasing order.
pub fn sort_ascending(v: &Vec<usize>) -> (out: Vec<usize>)
    ensures
        sorted(out@),
        out@.to_multiset() == v@.to_multiset(),
        out@.len() == v@.len(),
{
    let mut out: Vec<usize> = Vec::new();
    let mut i: usize = 0;
    while i < v.len()
        invariant
            0 <= i <= v.len(),
            sorted(out@),
            out@.to_multiset() == v@.take(i as int).to_multiset(),
            out@.len() == i,
        decreases v.len() - i,
    {
        let x = v[i];
        let mut pos: usize = 0;
        while pos < out.len() && out[pos] <= x
            invariant
                0 <= pos <= out.len(),
                sorted(out@),
                forall|k: int| 0 <= k < pos ==> out@[k] <= x,
            decreases out.len() - pos,
        {
            pos = pos + 1;
        }
        let ghost before = out@;
        out.insert(pos, x);
        proof {
            vstd::seq_lib::to_multiset_insert(before, pos as int, x);
            assert(v@.take(i + 1) =~= v@.take(i as int).push(x));
            assert(v@.take(i as int).push(x).to_multiset() =~= v@.take(i as int).to_multiset().insert(x));
            assert forall|a: int, b: int| 0 <= a <= b < out@.len() implies out@[a] <= out@[b] by {
                if a < pos && b > pos {
                    assert(before[a] <= before[b - 1]);
                } else if a < pos && b == pos {
                } else if a == pos && b > pos {
                    if pos < before.len() {
                        assert(before[pos as int] > x);
                        assert(before[pos as int] <= before[b - 1]);
                    }
                } else if a > pos {
                    assert(before[a - 1] <= before[b - 1]);
                }
            }
        }
        i = i + 1;
    }
    assert(v@.take(v.len() as int) =~= v@);
    out
}

} // verus!
