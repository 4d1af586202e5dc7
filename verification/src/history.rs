//! Agreement between consecutive prior partitions: the integer core of the
//! historical stability score.
use vstd::prelude::*;
use crate::input::{ids_unique, PriorPartition};
use crate::path::{chars_lt, lemma_chars_lt_order, string_less};

verus! {

/// The IDs that assignment `e` puts in community `c`.
pub open spec fn class_of(e: Seq<(String, u32)>, c: u32) -> Set<Seq<char>> {
    Set::new(|x: Seq<char>| exists|i: int| 0 <= i < e.len() && (#[trigger] e[i]).0@ == x && e[i].1 == c)
}

/// The communities of assignment `e`, each as the set of its node IDs.
pub open spec fn classes(e: Seq<(String, u32)>) -> Set<Set<Seq<char>>> {
    Set::new(|s: Set<Seq<char>>| exists|i: int| 0 <= i < e.len() && s == class_of(e, (#[trigger] e[i]).1))
}

/// The members of one inverted group, as a set of node IDs.
pub open spec fn group_members(g: (u32, Vec<String>)) -> Set<Seq<char>> {
    g.1@.map_values(|s: String| s@).to_set()
}

/// The member sets of a list of inverted groups.
pub open spec fn member_sets(groups: Seq<(u32, Vec<String>)>) -> Set<Set<Seq<char>>> {
    Set::new(|s: Set<Seq<char>>| exists|g: int| 0 <= g < groups.len() && s == group_members(#[trigger] groups[g]))
}

/// `groups` inverts `e`: one group per community ID used in `e`, holding
/// exactly the IDs that `e` puts in it.
pub open spec fn inverts(groups: Seq<(u32, Vec<String>)>, e: Seq<(String, u32)>) -> bool {
    &&& forall|g: int, h: int| 0 <= g < h < groups.len() ==> (#[trigger] groups[g]).0 != (#[trigger] groups[h]).0
    &&& forall|g: int| 0 <= g < groups.len() ==> group_members(#[trigger] groups[g]) == class_of(e, groups[g].0)
    &&& forall|g: int| 0 <= g < groups.len() ==> #[trigger] used_in(e, groups[g].0)
    &&& forall|i: int| 0 <= i < e.len() ==> #[trigger] has_group(groups, e[i].1)
}

/// Some entry of `e` has community `c`.
pub open spec fn used_in(e: Seq<(String, u32)>, c: u32) -> bool {
    exists|i: int| 0 <= i < e.len() && (#[trigger] e[i]).1 == c
}

/// Some group of `groups` has ID `c`.
pub open spec fn has_group(groups: Seq<(u32, Vec<String>)>, c: u32) -> bool {
    exists|g: int| 0 <= g < groups.len() && (#[trigger] groups[g]).0 == c
}

/// Groups come in ascending order of community ID, and each group's
/// members in ascending order of ID text (character by character, the byte
/// order of UTF-8).
pub open spec fn ascending_groups(groups: Seq<(u32, Vec<String>)>) -> bool {
    &&& forall|g: int, h: int| 0 <= g < h < groups.len() ==> (#[trigger] groups[g]).0 < (#[trigger] groups[h]).0
    &&& forall|g: int, a: int, b: int|
        0 <= g < groups.len() && 0 <= a < b < groups[g].1@.len() ==> chars_lt(
            (#[trigger] groups[g].1@[a])@,
            (#[trigger] groups[g].1@[b])@,
        )
}

fn find_group(groups: &Vec<(u32, Vec<String>)>, c: u32) -> (r: Option<usize>)
    ensures
        match r {
            Some(g) => g < groups.len() && groups@[g as int].0 == c,
            None => forall|g: int| 0 <= g < groups.len() ==> (#[trigger] groups@[g]).0 != c,
        },
{
    let mut g: usize = 0;
    while g < groups.len()
        invariant
            0 <= g <= groups.len(),
            forall|h: int| 0 <= h < g ==> (#[trigger] groups@[h]).0 != c,
        decreases groups.len() - g,
    {
        if groups[g].0 == c {
            return Some(g);
        }
        g = g + 1;
    }
    None
}

proof fn lemma_class_push(e: Seq<(String, u32)>, x: (String, u32), c: u32)
    ensures
        class_of(e.push(x), c) == (if x.1 == c {
            class_of(e, c).insert(x.0@)
        } else {
            class_of(e, c)
        }),
{
    let f = e.push(x);
    assert forall|y: Seq<char>| class_of(f, c).contains(y) implies (if x.1 == c {
        class_of(e, c).insert(x.0@)
    } else {
        class_of(e, c)
    }).contains(y) by {
        let i = choose|i: int| 0 <= i < f.len() && (#[trigger] f[i]).0@ == y && f[i].1 == c;
        if i < e.len() {
            assert(f[i] == e[i]);
        }
    }
    assert forall|y: Seq<char>| (if x.1 == c {
        class_of(e, c).insert(x.0@)
    } else {
        class_of(e, c)
    }).contains(y) implies class_of(f, c).contains(y) by {
        if class_of(e, c).contains(y) {
            let i = choose|i: int| 0 <= i < e.len() && (#[trigger] e[i]).0@ == y && e[i].1 == c;
            assert(f[i] == e[i]);
        } else {
            assert(f[e.len() as int] == x);
        }
    }
    assert(class_of(f, c) =~= (if x.1 == c {
        class_of(e, c).insert(x.0@)
    } else {
        class_of(e, c)
    }));
}

proof fn lemma_members_push(g: (u32, Vec<String>), v: Vec<String>, s: String)
    requires
        v@ == g.1@.push(s),
    ensures
        group_members((g.0, v)) == group_members(g).insert(s@),
{
    let old_views = g.1@.map_values(|t: String| t@);
    let new_views = v@.map_values(|t: String| t@);
    assert(new_views =~= old_views.push(s@));
    assert forall|y: Seq<char>| new_views.to_set().contains(y) <==> old_views.to_set().insert(s@).contains(y) by {
        if new_views.contains(y) {
            let k = choose|k: int| 0 <= k < new_views.len() && new_views[k] == y;
            if k < old_views.len() {
                assert(old_views[k] == y);
            }
        }
        if old_views.contains(y) {
            let k = choose|k: int| 0 <= k < old_views.len() && old_views[k] == y;
            assert(new_views[k] == y);
        }
        if y == s@ {
            assert(new_views[old_views.len() as int] == y);
        }
    }
    assert(new_views.to_set() =~= old_views.to_set().insert(s@));
}

proof fn lemma_members_insert(g: (u32, Vec<String>), v: Vec<String>, q: int, s: String)
    requires
        0 <= q <= g.1@.len(),
        v@ == g.1@.insert(q, s),
    ensures
        group_members((g.0, v)) == group_members(g).insert(s@),
{
    let old_views = g.1@.map_values(|t: String| t@);
    let new_views = v@.map_values(|t: String| t@);
    assert(new_views =~= old_views.insert(q, s@));
    assert forall|y: Seq<char>| new_views.to_set().contains(y) <==> old_views.to_set().insert(s@).contains(y) by {
        if new_views.contains(y) {
            let k = choose|k: int| 0 <= k < new_views.len() && new_views[k] == y;
            if k < q {
                assert(old_views[k] == y);
            } else if k > q {
                assert(old_views[k - 1] == y);
            }
        }
        if old_views.contains(y) {
            let k = choose|k: int| 0 <= k < old_views.len() && old_views[k] == y;
            if k < q {
                assert(new_views[k] == y);
            } else {
                assert(new_views[k + 1] == y);
            }
        }
        if y == s@ {
            assert(new_views[q] == y);
        }
    }
    assert(new_views.to_set() =~= old_views.to_set().insert(s@));
}

fn extend_group(groups: &mut Vec<(u32, Vec<String>)>, g: usize, name: String, Ghost(e): Ghost<Seq<(String, u32)>>, Ghost(x): Ghost<(String, u32)>)
    requires
        inverts(old(groups)@, e),
        ascending_groups(old(groups)@),
        ids_unique(e.push(x)),
        g < old(groups)@.len(),
        old(groups)@[g as int].0 == x.1,
        x.0@ == name@,
    ensures
        inverts(final(groups)@, e.push(x)),
        ascending_groups(final(groups)@),
{
    let ghost f = e.push(x);
    let ghost before = groups@;
    let c = groups[g].0;
    assert forall|d: u32| #[trigger] class_of(f, d) == (if x.1 == d {
        class_of(e, d).insert(x.0@)
    } else {
        class_of(e, d)
    }) by {
        lemma_class_push(e, x, d);
    }
    let mut grp: (u32, Vec<String>) = (0, Vec::new());
    groups.set_and_swap(g, &mut grp);
    assert(grp == before[g as int]);
    let ghost old_grp = grp;
    let mut members = grp.1;
    let ghost m0 = members@;
    let ghost nm = name;
    proof {
        assert forall|k: int| 0 <= k < m0.len() implies (#[trigger] m0[k])@ != name@ by {
            let mv = m0.map_values(|t: String| t@);
            assert(mv[k] == m0[k]@);
            assert(group_members(old_grp).contains(m0[k]@));
            assert(class_of(e, c).contains(m0[k]@));
            if m0[k]@ == name@ {
                let i = choose|i: int| 0 <= i < e.len() && (#[trigger] e[i]).0@ == m0[k]@ && e[i].1 == c;
                assert(f[i] == e[i]);
                assert(f[e.len() as int] == x);
            }
        }
    }
    let mut q: usize = 0;
    while q < members.len() && string_less(&members[q], &name)
        invariant
            0 <= q <= members.len(),
            members@ == m0,
            forall|j: int| 0 <= j < q ==> chars_lt((#[trigger] m0[j])@, name@),
        decreases members.len() - q,
    {
        q = q + 1;
    }
    proof {
        assert forall|j: int| q <= j < m0.len() implies chars_lt(name@, (#[trigger] m0[j])@) by {
            lemma_chars_lt_order(m0[q as int]@, name@, name@);
            lemma_chars_lt_order(name@, m0[q as int]@, m0[j]@);
            assert(before[g as int].1@ == m0);
        }
    }
    members.insert(q, name);
    proof {
        lemma_members_insert(old_grp, members, q as int, nm);
    }
    groups.set(g, (c, members));
    proof {
        let after = groups@;
        assert forall|h: int| 0 <= h < after.len() implies group_members(#[trigger] after[h]) == class_of(f, after[h].0) by {
            if h != g {
                assert(after[h] == before[h]);
            }
        }
        assert forall|h: int| 0 <= h < after.len() implies #[trigger] used_in(f, after[h].0) by {
            assert(after[h].0 == before[h].0);
            assert(used_in(e, before[h].0));
            let j = choose|j: int| 0 <= j < e.len() && (#[trigger] e[j]).1 == before[h].0;
            assert(f[j] == e[j]);
        }
        assert forall|j: int| 0 <= j < f.len() implies #[trigger] has_group(after, f[j].1) by {
            if j < e.len() {
                assert(f[j] == e[j]);
                assert(has_group(before, e[j].1));
                let h = choose|h: int| 0 <= h < before.len() && (#[trigger] before[h]).0 == e[j].1;
                assert(after[h].0 == before[h].0);
            } else {
                assert(after[g as int].0 == f[j].1);
            }
        }
        assert forall|h: int, k: int| 0 <= h < k < after.len() implies (#[trigger] after[h]).0 != (#[trigger] after[k]).0 by {
            assert(after[h].0 == before[h].0);
            assert(after[k].0 == before[k].0);
        }
        assert forall|h: int, k: int| 0 <= h < k < after.len() implies (#[trigger] after[h]).0 < (#[trigger] after[k]).0 by {
            assert(after[h].0 == before[h].0);
            assert(after[k].0 == before[k].0);
        }
        let mg = after[g as int].1@;
        assert(mg == m0.insert(q as int, nm));
        assert forall|h: int, a: int, b: int|
            0 <= h < after.len() && 0 <= a < b < after[h].1@.len() implies chars_lt(
                (#[trigger] after[h].1@[a])@,
                (#[trigger] after[h].1@[b])@,
            ) by {
            if h != g {
                assert(after[h] == before[h]);
            } else {
                assert(before[g as int].1@ == m0);
                let va = if a < q { m0[a] } else if a == q { nm } else { m0[a - 1] };
                let vb = if b < q { m0[b] } else if b == q { nm } else { m0[b - 1] };
                assert(mg[a] == va);
                assert(mg[b] == vb);
                if a < q && b > q {
                    lemma_chars_lt_order(m0[a]@, nm@, m0[b - 1]@);
                } else if a < q && b < q {
                    assert(chars_lt(before[g as int].1@[a]@, before[g as int].1@[b]@));
                } else if a > q && b > q {
                    assert(chars_lt(before[g as int].1@[a - 1]@, before[g as int].1@[b - 1]@));
                }
            }
        }
    }
}

fn open_group(groups: &mut Vec<(u32, Vec<String>)>, name: String, c: u32, Ghost(e): Ghost<Seq<(String, u32)>>, Ghost(x): Ghost<(String, u32)>)
    requires
        inverts(old(groups)@, e),
        ascending_groups(old(groups)@),
        forall|g: int| 0 <= g < old(groups)@.len() ==> (#[trigger] old(groups)@[g]).0 != c,
        x.1 == c,
        x.0@ == name@,
    ensures
        inverts(final(groups)@, e.push(x)),
        ascending_groups(final(groups)@),
{
    let ghost f = e.push(x);
    let ghost before = groups@;
    assert forall|d: u32| #[trigger] class_of(f, d) == (if x.1 == d {
        class_of(e, d).insert(x.0@)
    } else {
        class_of(e, d)
    }) by {
        lemma_class_push(e, x, d);
    }
    let mut members: Vec<String> = Vec::new();
    let ghost empty: (u32, Vec<String>) = (c, members);
    let ghost nm = name;
    members.push(name);
    proof {
        lemma_members_push(empty, members, nm);
        assert(group_members(empty) =~= Set::empty());
        assert(class_of(e, c) =~= Set::empty()) by {
            if exists|y: Seq<char>| class_of(e, c).contains(y) {
                let y = choose|y: Seq<char>| class_of(e, c).contains(y);
                let j = choose|j: int| 0 <= j < e.len() && (#[trigger] e[j]).0@ == y && e[j].1 == c;
                assert(has_group(before, e[j].1));
                let h = choose|h: int| 0 <= h < before.len() && (#[trigger] before[h]).0 == e[j].1;
            }
        }
    }
    let mut p: usize = 0;
    while p < groups.len() && groups[p].0 < c
        invariant
            0 <= p <= groups.len(),
            groups@ == before,
            forall|j: int| 0 <= j < p ==> (#[trigger] before[j]).0 < c,
        decreases groups.len() - p,
    {
        p = p + 1;
    }
    proof {
        assert forall|j: int| p <= j < before.len() implies c < (#[trigger] before[j]).0 by {
            assert(before[p as int].0 != c);
            if j > p {
                assert(before[p as int].0 < before[j].0);
            }
        }
    }
    let ghost ng = (c, members);
    groups.insert(p, (c, members));
    proof {
        let after = groups@;
        assert(after == before.insert(p as int, ng));
        assert forall|h: int| 0 <= h < after.len() implies #[trigger] after[h] == (if h < p {
            before[h]
        } else if h == p {
            ng
        } else {
            before[h - 1]
        }) by {}
        assert forall|h: int| 0 <= h < after.len() implies group_members(#[trigger] after[h]) == class_of(f, after[h].0) by {
            assert(after[h] == (if h < p { before[h] } else if h == p { ng } else { before[h - 1] }));
        }
        assert forall|h: int| 0 <= h < after.len() implies #[trigger] used_in(f, after[h].0) by {
            assert(after[h] == (if h < p { before[h] } else if h == p { ng } else { before[h - 1] }));
            if h != p {
                let hh = if h < p { h } else { h - 1 };
                assert(used_in(e, before[hh].0));
                let j = choose|j: int| 0 <= j < e.len() && (#[trigger] e[j]).1 == before[hh].0;
                assert(f[j] == e[j]);
            } else {
                assert(f[e.len() as int].1 == after[h].0);
            }
        }
        assert forall|j: int| 0 <= j < f.len() implies #[trigger] has_group(after, f[j].1) by {
            if j < e.len() {
                assert(f[j] == e[j]);
                assert(has_group(before, e[j].1));
                let h = choose|h: int| 0 <= h < before.len() && (#[trigger] before[h]).0 == e[j].1;
                if h < p {
                    assert(after[h] == before[h]);
                } else {
                    assert(after[h + 1] == before[h]);
                }
            } else {
                assert(after[p as int].0 == f[j].1);
            }
        }
        assert forall|h: int, k: int| 0 <= h < k < after.len() implies (#[trigger] after[h]).0 < (#[trigger] after[k]).0 by {
            assert(after[h] == (if h < p { before[h] } else if h == p { ng } else { before[h - 1] }));
            assert(after[k] == (if k < p { before[k] } else if k == p { ng } else { before[k - 1] }));
        }
        assert forall|h: int, k: int| 0 <= h < k < after.len() implies (#[trigger] after[h]).0 != (#[trigger] after[k]).0 by {
            assert(after[h] == (if h < p { before[h] } else if h == p { ng } else { before[h - 1] }));
            assert(after[k] == (if k < p { before[k] } else if k == p { ng } else { before[k - 1] }));
        }
        assert forall|h: int, a: int, b: int|
            0 <= h < after.len() && 0 <= a < b < after[h].1@.len() implies chars_lt(
                (#[trigger] after[h].1@[a])@,
                (#[trigger] after[h].1@[b])@,
            ) by {
            assert(after[h] == (if h < p { before[h] } else if h == p { ng } else { before[h - 1] }));
        }
    }
}

proof fn lemma_inverts_member_sets(gs: Seq<(u32, Vec<String>)>, e: Seq<(String, u32)>)
    requires
        inverts(gs, e),
    ensures
        member_sets(gs) == classes(e),
{
    assert forall|s: Set<Seq<char>>| member_sets(gs).contains(s) <==> classes(e).contains(s) by {
        if member_sets(gs).contains(s) {
            let g = choose|g: int| 0 <= g < gs.len() && s == group_members(#[trigger] gs[g]);
            assert(used_in(e, gs[g].0));
            let j = choose|j: int| 0 <= j < e.len() && (#[trigger] e[j]).1 == gs[g].0;
            assert(s == class_of(e, e[j].1));
        }
        if classes(e).contains(s) {
            let j = choose|j: int| 0 <= j < e.len() && s == class_of(e, (#[trigger] e[j]).1);
            assert(has_group(gs, e[j].1));
            let g = choose|g: int| 0 <= g < gs.len() && (#[trigger] gs[g]).0 == e[j].1;
            assert(s == group_members(gs[g]));
        }
    }
    assert(member_sets(gs) =~= classes(e));
}

/// Groups node IDs by community: one group per community ID, in ascending
/// order of ID, holding the IDs assigned to it in ascending order.
pub fn invert_assignments(assignments: &Vec<(String, u32)>) -> (groups: Vec<(u32, Vec<String>)>)
    requires
        ids_unique(assignments@),
    ensures
        inverts(groups@, assignments@),
        ascending_groups(groups@),
        member_sets(groups@) == classes(assignments@),
{
    let mut groups: Vec<(u32, Vec<String>)> = Vec::new();
    let mut i: usize = 0;
    while i < assignments.len()
        invariant
            0 <= i <= assignments.len(),
            ids_unique(assignments@),
            inverts(groups@, assignments@.take(i as int)),
            ascending_groups(groups@),
        decreases assignments.len() - i,
    {
        let ghost e = assignments@.take(i as int);
        let ghost x = assignments@[i as int];
        assert(assignments@.take(i + 1) =~= e.push(x));
        assert(ids_unique(e.push(x))) by {
            assert forall|a: int, b: int| 0 <= a < b < e.push(x).len() implies (#[trigger] e.push(x)[a]).0@ != (#[trigger] e.push(x)[b]).0@ by {
                assert(e.push(x)[a] == assignments@[a]);
                assert(e.push(x)[b] == assignments@[b]);
            }
        }
        let name = assignments[i].0.clone();
        let c = assignments[i].1;
        match find_group(&groups, c) {
            Some(g) => extend_group(&mut groups, g, name, Ghost(e), Ghost(x)),
            None => open_group(&mut groups, name, c, Ghost(e), Ghost(x)),
        }
        i = i + 1;
    }
    assert(assignments@.take(assignments.len() as int) =~= assignments@);
    proof {
        lemma_inverts_member_sets(groups@, assignments@);
    }
    groups
}

fn holds(v: &Vec<String>, s: &String) -> (r: bool)
    ensures
        r == v@.map_values(|t: String| t@).contains(s@),
{
    let ghost w = v@.map_values(|t: String| t@);
    let mut k: usize = 0;
    while k < v.len()
        invariant
            0 <= k <= v.len(),
            w == v@.map_values(|t: String| t@),
            forall|j: int| 0 <= j < k ==> w[j] != s@,
        decreases v.len() - k,
    {
        if v[k] == *s {
            assert(w[k as int] == s@);
            return true;
        }
        k = k + 1;
    }
    false
}

fn included(x: &Vec<String>, y: &Vec<String>) -> (r: bool)
    ensures
        r == x@.map_values(|t: String| t@).to_set().subset_of(y@.map_values(|t: String| t@).to_set()),
{
    let ghost xv = x@.map_values(|t: String| t@);
    let ghost yv = y@.map_values(|t: String| t@);
    let mut k: usize = 0;
    while k < x.len()
        invariant
            0 <= k <= x.len(),
            xv == x@.map_values(|t: String| t@),
            yv == y@.map_values(|t: String| t@),
            forall|j: int| 0 <= j < k ==> yv.contains(#[trigger] xv[j]),
        decreases x.len() - k,
    {
        if !holds(y, &x[k]) {
            assert(xv.to_set().contains(xv[k as int]));
            return false;
        }
        k = k + 1;
    }
    assert forall|z: Seq<char>| xv.to_set().contains(z) implies yv.to_set().contains(z) by {
        let j = choose|j: int| 0 <= j < xv.len() && xv[j] == z;
        assert(yv.contains(xv[j]));
    }
    true
}

fn same_members(x: &(u32, Vec<String>), y: &(u32, Vec<String>)) -> (r: bool)
    ensures
        r == (group_members(*x) == group_members(*y)),
{
    let a = included(&x.1, &y.1);
    let b = included(&y.1, &x.1);
    proof {
        if a && b {
            assert(group_members(*x) =~= group_members(*y));
        }
    }
    a && b
}

fn covered(a: &Vec<(u32, Vec<String>)>, b: &Vec<(u32, Vec<String>)>) -> (r: bool)
    ensures
        r == member_sets(a@).subset_of(member_sets(b@)),
{
    let mut g: usize = 0;
    while g < a.len()
        invariant
            0 <= g <= a.len(),
            forall|k: int| 0 <= k < g ==> member_sets(b@).contains(group_members(#[trigger] a@[k])),
        decreases a.len() - g,
    {
        let mut found = false;
        let mut h: usize = 0;
        while h < b.len() && !found
            invariant
                0 <= h <= b.len(),
                0 <= g < a.len(),
                found ==> member_sets(b@).contains(group_members(a@[g as int])),
                !found ==> forall|k: int| 0 <= k < h ==> group_members(#[trigger] b@[k]) != group_members(a@[g as int]),
            decreases b.len() - h,
        {
            if same_members(&a[g], &b[h]) {
                found = true;
            }
            h = h + 1;
        }
        if !found {
            assert(member_sets(a@).contains(group_members(a@[g as int])));
            assert(!member_sets(b@).contains(group_members(a@[g as int])));
            return false;
        }
        g = g + 1;
    }
    assert forall|s: Set<Seq<char>>| member_sets(a@).contains(s) implies member_sets(b@).contains(s) by {
        let k = choose|k: int| 0 <= k < a@.len() && s == group_members(#[trigger] a@[k]);
    }
    true
}

/// Whether two inverted assignments have the same communities, as sets of
/// node IDs, whatever their numeric IDs.
pub fn community_sets_match(a: &Vec<(u32, Vec<String>)>, b: &Vec<(u32, Vec<String>)>) -> (r: bool)
    ensures
        r == (member_sets(a@) == member_sets(b@)),
{
    let x = covered(a, b);
    let y = covered(b, a);
    proof {
        if x && y {
            assert(member_sets(a@) =~= member_sets(b@));
        }
    }
    x && y
}

/// Consecutive pairs `k, k + 1` of `prior`, for `k` below `j`, whose
/// assignments have the same communities.
pub open spec fn matching_pairs(prior: Seq<PriorPartition>, j: int) -> nat
    decreases j,
{
    if j <= 0 {
        0
    } else {
        matching_pairs(prior, j - 1) + (if classes(prior[j - 1].cluster_assignments@) == classes(
            prior[j].cluster_assignments@,
        ) {
            1nat
        } else {
            0nat
        })
    }
}

/// The number of consecutive pairs of `prior` (oldest first) whose
/// assignments have the same communities: the numerator of the historical
/// stability score, whose denominator is `prior.len() - 1`.
pub fn matching_pair_count(prior: &Vec<PriorPartition>) -> (n: usize)
    requires
        forall|k: int| 0 <= k < prior.len() ==> ids_unique(#[trigger] prior@[k].cluster_assignments@),
    ensures
        prior.len() < 2 ==> n == 0,
        prior.len() >= 2 ==> n == matching_pairs(prior@, prior.len() - 1),
        prior.len() >= 2 ==> n <= prior.len() - 1,
        n <= prior.len(),
{
    if prior.len() < 2 {
        return 0;
    }
    let mut n: usize = 0;
    let mut k: usize = 0;
    let mut prev = invert_assignments(&prior[0].cluster_assignments);
    while k + 1 < prior.len()
        invariant
            0 <= k < prior.len(),
            forall|j: int| 0 <= j < prior.len() ==> ids_unique(#[trigger] prior@[j].cluster_assignments@),
            n == matching_pairs(prior@, k as int),
            n <= k,
            member_sets(prev@) == classes(prior@[k as int].cluster_assignments@),
        decreases prior.len() - k,
    {
        let next = invert_assignments(&prior[k + 1].cluster_assignments);
        if community_sets_match(&prev, &next) {
            n = n + 1;
        }
        prev = next;
        k = k + 1;
    }
    n
}

/// Renaming community IDs one-to-one does not change the communities of an
/// assignment: agreement between partitions ignores numeric IDs.
pub proof fn lemma_classes_ignore_ids(e: Seq<(String, u32)>, f: Seq<(String, u32)>, rename: spec_fn(u32) -> u32)
    requires
        f.len() == e.len(),
        forall|i: int| 0 <= i < e.len() ==> (#[trigger] f[i]).0@ == e[i].0@ && f[i].1 == rename(e[i].1),
        forall|a: u32, b: u32| #[trigger] rename(a) == #[trigger] rename(b) ==> a == b,
    ensures
        classes(f) == classes(e),
{
    assert forall|c: u32| #[trigger] class_of(f, rename(c)) == class_of(e, c) by {
        assert forall|y: Seq<char>| class_of(f, rename(c)).contains(y) <==> class_of(e, c).contains(y) by {
            if class_of(f, rename(c)).contains(y) {
                let i = choose|i: int| 0 <= i < f.len() && (#[trigger] f[i]).0@ == y && f[i].1 == rename(c);
                assert(rename(e[i].1) == rename(c));
                assert(e[i].0@ == y && e[i].1 == c);
            }
            if class_of(e, c).contains(y) {
                let i = choose|i: int| 0 <= i < e.len() && (#[trigger] e[i]).0@ == y && e[i].1 == c;
                assert(f[i].0@ == y && f[i].1 == rename(c));
            }
        }
        assert(class_of(f, rename(c)) =~= class_of(e, c));
    }
    assert forall|s: Set<Seq<char>>| classes(f).contains(s) <==> classes(e).contains(s) by {
        if classes(f).contains(s) {
            let i = choose|i: int| 0 <= i < f.len() && s == class_of(f, (#[trigger] f[i]).1);
            assert(class_of(f, rename(e[i].1)) == class_of(e, e[i].1));
            assert(s == class_of(e, e[i].1));
        }
        if classes(e).contains(s) {
            let i = choose|i: int| 0 <= i < e.len() && s == class_of(e, (#[trigger] e[i]).1);
            assert(class_of(f, rename(e[i].1)) == class_of(e, e[i].1));
            assert(s == class_of(f, f[i].1));
        }
    }
    assert(classes(f) =~= classes(e));
}

} // verus!
