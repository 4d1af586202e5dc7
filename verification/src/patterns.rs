//! Counting pattern instances by category and fingerprint: the integer core
//! of the pattern metrics (entropy and convention drift per category).
use vstd::prelude::*;
use crate::input::PatternInstanceInput;

verus! {

/// The fingerprints of one category with their instance counts.
#[derive(Debug, Clone)]
pub struct CategoryCounts {
    /// Pattern category.
    pub category: String,
    /// `(fingerprint, number of instances)`, each fingerprint once.
    pub fingerprints: Vec<(String, u64)>,
}

/// The number of instances in `ps` with category `cat` and fingerprint `fp`.
pub open spec fn pair_count(ps: Seq<PatternInstanceInput>, cat: Seq<char>, fp: Seq<char>) -> nat
    decreases ps.len(),
{
    if ps.len() == 0 {
        0
    } else {
        pair_count(ps.drop_last(), cat, fp) + (if ps.last().category@ == cat && ps.last().fingerprint@
            == fp {
            1nat
        } else {
            0nat
        })
    }
}

/// Row `row` of category `cat` lists distinct fingerprints with their exact,
/// positive counts in `ps`.
pub open spec fn row_counted(row: Seq<(String, u64)>, cat: Seq<char>, ps: Seq<PatternInstanceInput>) -> bool {
    &&& forall|x: int, y: int| 0 <= x < y < row.len() ==> (#[trigger] row[x]).0@ != (#[trigger] row[y]).0@
    &&& forall|x: int|
        0 <= x < row.len() ==> (#[trigger] row[x]).1 == pair_count(ps, cat, row[x].0@) && row[x].1 > 0
}

/// Instance `p` is listed: its category has a group whose row holds its
/// fingerprint.
pub open spec fn is_listed(groups: Seq<CategoryCounts>, p: PatternInstanceInput) -> bool {
    exists|g: int, x: int|
        0 <= g < groups.len() && 0 <= x < groups[g].fingerprints@.len() && (#[trigger] groups[g]).category@
            == p.category@ && (#[trigger] groups[g].fingerprints@[x]).0@ == p.fingerprint@
}

/// `groups` counts the instances of `ps`: one group per category seen, each
/// with the exact count of every fingerprint seen in it, no empty group, and
/// every instance listed.
pub open spec fn groups_counted(groups: Seq<CategoryCounts>, ps: Seq<PatternInstanceInput>) -> bool {
    &&& forall|g: int, h: int|
        0 <= g < h < groups.len() ==> (#[trigger] groups[g]).category@ != (#[trigger] groups[h]).category@
    &&& forall|g: int|
        0 <= g < groups.len() ==> row_counted((#[trigger] groups[g]).fingerprints@, groups[g].category@, ps)
    &&& forall|g: int| 0 <= g < groups.len() ==> (#[trigger] groups[g]).fingerprints@.len() > 0
    &&& forall|i: int| 0 <= i < ps.len() ==> is_listed(groups, #[trigger] ps[i])
}

proof fn lemma_pair_count_le(ps: Seq<PatternInstanceInput>, cat: Seq<char>, fp: Seq<char>)
    ensures
        pair_count(ps, cat, fp) <= ps.len(),
    decreases ps.len(),
{
    if ps.len() > 0 {
        lemma_pair_count_le(ps.drop_last(), cat, fp);
    }
}

proof fn lemma_pair_count_witness(ps: Seq<PatternInstanceInput>, cat: Seq<char>, fp: Seq<char>) -> (j: int)
    requires
        pair_count(ps, cat, fp) > 0,
    ensures
        0 <= j < ps.len(),
        ps[j].category@ == cat,
        ps[j].fingerprint@ == fp,
    decreases ps.len(),
{
    if pair_count(ps.drop_last(), cat, fp) > 0 {
        lemma_pair_count_witness(ps.drop_last(), cat, fp)
    } else {
        (ps.len() - 1) as int
    }
}

fn find_category(groups: &Vec<CategoryCounts>, cat: &String) -> (r: Option<usize>)
    ensures
        match r {
            Some(g) => g < groups.len() && groups@[g as int].category@ == cat@,
            None => forall|g: int| 0 <= g < groups.len() ==> (#[trigger] groups@[g]).category@ != cat@,
        },
{
    let mut g: usize = 0;
    while g < groups.len()
        invariant
            0 <= g <= groups.len(),
            forall|h: int| 0 <= h < g ==> (#[trigger] groups@[h]).category@ != cat@,
        decreases groups.len() - g,
    {
        if groups[g].category == *cat {
            return Some(g);
        }
        g = g + 1;
    }
    None
}

fn find_fingerprint(row: &Vec<(String, u64)>, fp: &String) -> (r: Option<usize>)
    ensures
        match r {
            Some(x) => x < row.len() && row@[x as int].0@ == fp@,
            None => forall|x: int| 0 <= x < row.len() ==> (#[trigger] row@[x]).0@ != fp@,
        },
{
    let mut x: usize = 0;
    while x < row.len()
        invariant
            0 <= x <= row.len(),
            forall|y: int| 0 <= y < x ==> (#[trigger] row@[y]).0@ != fp@,
        decreases row.len() - x,
    {
        if row[x].0 == *fp {
            return Some(x);
        }
        x = x + 1;
    }
    None
}

/// Adds one instance of `fp` to a row counted over `ps`, giving the row
/// counted over `ps` with `p` appended.
fn add_to_row(row: &mut Vec<(String, u64)>, fp: &String, Ghost(ps): Ghost<Seq<PatternInstanceInput>>, Ghost(p): Ghost<PatternInstanceInput>)
    requires
        row_counted(old(row)@, p.category@, ps),
        p.fingerprint@ == fp@,
        ps.len() < usize::MAX,
        pair_count(ps, p.category@, fp@) > 0 ==> exists|x: int| 0 <= x < old(row)@.len() && (#[trigger] old(row)@[x]).0@ == fp@,
    ensures
        row_counted(final(row)@, p.category@, ps.push(p)),
        exists|x: int| 0 <= x < final(row)@.len() && (#[trigger] final(row)@[x]).0@ == fp@,
        forall|y: int| 0 <= y < old(row)@.len() ==> exists|x: int| 0 <= x < final(row)@.len() && (#[trigger] final(row)@[x]).0@ == (#[trigger] old(row)@[y]).0@,
{
    let ghost cat = p.category@;
    let ghost qs = ps.push(p);
    assert(qs.drop_last() =~= ps);
    assert forall|s: Seq<char>| s != fp@ implies pair_count(qs, cat, s) == pair_count(ps, cat, s) by {}
    assert(pair_count(qs, cat, fp@) == pair_count(ps, cat, fp@) + 1);
    proof {
        lemma_pair_count_le(ps, cat, fp@);
    }
    let ghost before = row@;
    match find_fingerprint(row, fp) {
        Some(x) => {
            let name = row[x].0.clone();
            let n = row[x].1;
            row.set(x, (name, n + 1));
            assert(before[x as int].0@ == fp@);
            assert forall|y: int, z: int| 0 <= y < z < row@.len() implies (#[trigger] row@[y]).0@ != (#[trigger] row@[z]).0@ by {
                assert(row@[y].0@ == before[y].0@);
                assert(row@[z].0@ == before[z].0@);
            }
            assert forall|y: int| 0 <= y < row@.len() implies (#[trigger] row@[y]).1 == pair_count(qs, cat, row@[y].0@) && row@[y].1 > 0 by {
                if y != x {
                    assert(row@[y] == before[y]);
                    assert(before[y].0@ != before[x as int].0@);
                }
            }
            assert forall|y: int| 0 <= y < before.len() implies exists|z: int| 0 <= z < row@.len() && (#[trigger] row@[z]).0@ == (#[trigger] before[y]).0@ by {
                assert(row@[y].0@ == before[y].0@);
            }
            assert(row@[x as int].0@ == fp@);
        },
        None => {
            row.push((fp.clone(), 1));
            assert(pair_count(ps, cat, fp@) == 0);
            assert forall|y: int, z: int| 0 <= y < z < row@.len() implies (#[trigger] row@[y]).0@ != (#[trigger] row@[z]).0@ by {
                assert(row@[y] == before[y]);
                if z < before.len() {
                    assert(row@[z] == before[z]);
                }
            }
            assert forall|y: int| 0 <= y < row@.len() implies (#[trigger] row@[y]).1 == pair_count(qs, cat, row@[y].0@) && row@[y].1 > 0 by {
                if y < before.len() {
                    assert(row@[y] == before[y]);
                }
            }
            assert forall|y: int| 0 <= y < before.len() implies exists|z: int| 0 <= z < row@.len() && (#[trigger] row@[z]).0@ == (#[trigger] before[y]).0@ by {
                assert(row@[y] == before[y]);
            }
            assert(row@[before.len() as int].0@ == fp@);
        },
    }
}

/// Groups pattern instances by category and counts each fingerprint within
/// its category.
pub fn count_patterns_by_category(patterns: &Vec<PatternInstanceInput>) -> (groups: Vec<CategoryCounts>)
    ensures
        groups_counted(groups@, patterns@),
{
    let mut groups: Vec<CategoryCounts> = Vec::new();
    let mut i: usize = 0;
    while i < patterns.len()
        invariant
            0 <= i <= patterns.len(),
            groups_counted(groups@, patterns@.take(i as int)),
        decreases patterns.len() - i,
    {
        let p = &patterns[i];
        let ghost ps = patterns@.take(i as int);
        let ghost qs = patterns@.take(i + 1);
        assert(qs =~= ps.push(*p));
        assert(qs.drop_last() =~= ps);
        let ghost before = groups@;
        match find_category(&groups, &p.category) {
            Some(g) => {
                let mut grp = CategoryCounts { category: String::new(), fingerprints: Vec::new() };
                groups.set_and_swap(g, &mut grp);
                assert(grp == before[g as int]);
                proof {
                    if pair_count(ps, p.category@, p.fingerprint@) > 0 {
                        let j = lemma_pair_count_witness(ps, p.category@, p.fingerprint@);
                        assert(is_listed(before, ps[j]));
                        let (h, x) = choose|h: int, x: int|
                            0 <= h < before.len() && 0 <= x < before[h].fingerprints@.len() && (#[trigger] before[h]).category@
                                == ps[j].category@ && (#[trigger] before[h].fingerprints@[x]).0@ == ps[j].fingerprint@;
                        if h != g {
                            assert(before[h].category@ != before[g as int].category@);
                        }
                        assert(grp.fingerprints@[x].0@ == p.fingerprint@);
                    }
                }
                add_to_row(&mut grp.fingerprints, &p.fingerprint, Ghost(ps), Ghost(*p));
                groups.set(g, grp);
                proof {
                    let after = groups@;
                    assert forall|h: int| 0 <= h < after.len() implies row_counted((#[trigger] after[h]).fingerprints@, after[h].category@, qs) by {
                        if h != g {
                            assert(after[h] == before[h]);
                            let row = after[h].fingerprints@;
                            let cat = after[h].category@;
                            assert(cat != p.category@);
                            assert forall|x: int| 0 <= x < row.len() implies (#[trigger] row[x]).1 == pair_count(qs, cat, row[x].0@) && row[x].1 > 0 by {}
                        }
                    }
                    assert forall|j: int| 0 <= j < qs.len() implies is_listed(after, #[trigger] qs[j]) by {
                        if j < i {
                            assert(qs[j] == ps[j]);
                            assert(is_listed(before, ps[j]));
                            let (h, x) = choose|h: int, x: int|
                                0 <= h < before.len() && 0 <= x < before[h].fingerprints@.len() && (#[trigger] before[h]).category@
                                    == ps[j].category@ && (#[trigger] before[h].fingerprints@[x]).0@ == ps[j].fingerprint@;
                            if h != g {
                                assert(after[h] == before[h]);
                                assert(after[h].fingerprints@[x] == before[h].fingerprints@[x]);
                            } else {
                                let z = choose|z: int| 0 <= z < after[g as int].fingerprints@.len() && (#[trigger] after[g as int].fingerprints@[z]).0@ == (#[trigger] before[g as int].fingerprints@[x]).0@;
                                assert(after[g as int].fingerprints@[z].0@ == qs[j].fingerprint@);
                            }
                        } else {
                            assert(qs[j] == *p);
                            let z = choose|z: int| 0 <= z < after[g as int].fingerprints@.len() && (#[trigger] after[g as int].fingerprints@[z]).0@ == p.fingerprint@;
                            assert(after[g as int].fingerprints@[z].0@ == qs[j].fingerprint@);
                        }
                    }
                }
            },
            None => {
                let mut row: Vec<(String, u64)> = Vec::new();
                let ghost empty_row = row@;
                assert(row_counted(empty_row, p.category@, ps));
                proof {
                    if pair_count(ps, p.category@, p.fingerprint@) > 0 {
                        let j = lemma_pair_count_witness(ps, p.category@, p.fingerprint@);
                        assert(is_listed(before, ps[j]));
                        let (h, x) = choose|h: int, x: int|
                            0 <= h < before.len() && 0 <= x < before[h].fingerprints@.len() && (#[trigger] before[h]).category@
                                == ps[j].category@ && (#[trigger] before[h].fingerprints@[x]).0@ == ps[j].fingerprint@;
                        assert(false);
                    }
                }
                add_to_row(&mut row, &p.fingerprint, Ghost(ps), Ghost(*p));
                groups.push(CategoryCounts { category: p.category.clone(), fingerprints: row });
                proof {
                    let after = groups@;
                    let g = before.len() as int;
                    assert forall|h: int| 0 <= h < after.len() implies row_counted((#[trigger] after[h]).fingerprints@, after[h].category@, qs) by {
                        if h != g {
                            assert(after[h] == before[h]);
                            let row = after[h].fingerprints@;
                            let cat = after[h].category@;
                            assert(cat != p.category@);
                            assert forall|x: int| 0 <= x < row.len() implies (#[trigger] row[x]).1 == pair_count(qs, cat, row[x].0@) && row[x].1 > 0 by {}
                        }
                    }
                    assert forall|j: int| 0 <= j < qs.len() implies is_listed(after, #[trigger] qs[j]) by {
                        if j < i {
                            assert(qs[j] == ps[j]);
                            assert(is_listed(before, ps[j]));
                            let (h, x) = choose|h: int, x: int|
                                0 <= h < before.len() && 0 <= x < before[h].fingerprints@.len() && (#[trigger] before[h]).category@
                                    == ps[j].category@ && (#[trigger] before[h].fingerprints@[x]).0@ == ps[j].fingerprint@;
                            assert(after[h] == before[h]);
                            assert(after[h].fingerprints@[x] == before[h].fingerprints@[x]);
                        } else {
                            assert(qs[j] == *p);
                            let z = choose|z: int| 0 <= z < after[g].fingerprints@.len() && (#[trigger] after[g].fingerprints@[z]).0@ == p.fingerprint@;
                            assert(after[g].fingerprints@[z].0@ == qs[j].fingerprint@);
                        }
                    }
                    assert forall|h: int, k: int| 0 <= h < k < after.len() implies (#[trigger] after[h]).category@ != (#[trigger] after[k]).category@ by {
                        if k == g {
                            assert(after[h] == before[h]);
                        } else {
                            assert(after[h] == before[h]);
                            assert(after[k] == before[k]);
                        }
                    }
                }
            },
        }
        i = i + 1;
    }
    assert(patterns@.take(patterns.len() as int) =~= patterns@);
    groups
}

/// The number of instances in `ps` with category `cat`.
pub open spec fn category_count(ps: Seq<PatternInstanceInput>, cat: Seq<char>) -> nat
    decreases ps.len(),
{
    if ps.len() == 0 {
        0
    } else {
        category_count(ps.drop_last(), cat) + (if ps.last().category@ == cat {
            1nat
        } else {
            0nat
        })
    }
}

/// The sum of the counts of a row.
pub open spec fn row_total(row: Seq<(String, u64)>) -> int
    decreases row.len(),
{
    if row.len() == 0 {
        0
    } else {
        row_total(row.drop_last()) + row.last().1
    }
}

spec fn row_pair_total(row: Seq<(String, u64)>, ps: Seq<PatternInstanceInput>, cat: Seq<char>) -> int
    decreases row.len(),
{
    if row.len() == 0 {
        0
    } else {
        row_pair_total(row.drop_last(), ps, cat) + pair_count(ps, cat, row.last().0@)
    }
}

spec fn row_hits(row: Seq<(String, u64)>, fp: Seq<char>) -> int
    decreases row.len(),
{
    if row.len() == 0 {
        0
    } else {
        row_hits(row.drop_last(), fp) + (if row.last().0@ == fp {
            1int
        } else {
            0int
        })
    }
}

proof fn lemma_row_hits_one(row: Seq<(String, u64)>, fp: Seq<char>, x: int)
    requires
        0 <= x < row.len(),
        row[x].0@ == fp,
        forall|a: int, b: int| 0 <= a < b < row.len() ==> (#[trigger] row[a]).0@ != (#[trigger] row[b]).0@,
    ensures
        row_hits(row, fp) == 1,
    decreases row.len(),
{
    if x < row.len() - 1 {
        assert(row.drop_last()[x] == row[x]);
        lemma_row_hits_one(row.drop_last(), fp, x);
        assert(row.last().0@ != fp) by {
            assert(row[x].0@ != row[row.len() - 1].0@);
        }
    } else {
        lemma_row_hits_zero(row.drop_last(), fp, row);
    }
}

proof fn lemma_row_hits_zero(prefix: Seq<(String, u64)>, fp: Seq<char>, row: Seq<(String, u64)>)
    requires
        row.len() > 0,
        prefix == row.drop_last(),
        row.last().0@ == fp,
        forall|a: int, b: int| 0 <= a < b < row.len() ==> (#[trigger] row[a]).0@ != (#[trigger] row[b]).0@,
    ensures
        row_hits(prefix, fp) == 0,
{
    assert forall|k: int| 0 <= k <= prefix.len() implies row_hits(#[trigger] prefix.take(k), fp) == 0 by {
        lemma_prefix_hits_zero(prefix, fp, row, k);
    }
    assert(prefix.take(prefix.len() as int) =~= prefix);
}

proof fn lemma_prefix_hits_zero(prefix: Seq<(String, u64)>, fp: Seq<char>, row: Seq<(String, u64)>, k: int)
    requires
        row.len() > 0,
        prefix == row.drop_last(),
        row.last().0@ == fp,
        forall|a: int, b: int| 0 <= a < b < row.len() ==> (#[trigger] row[a]).0@ != (#[trigger] row[b]).0@,
        0 <= k <= prefix.len(),
    ensures
        row_hits(prefix.take(k), fp) == 0,
    decreases k,
{
    if k > 0 {
        lemma_prefix_hits_zero(prefix, fp, row, k - 1);
        assert(prefix.take(k).drop_last() =~= prefix.take(k - 1));
        assert(prefix[k - 1] == row[k - 1]);
        assert(row[k - 1].0@ != row[row.len() - 1].0@);
    }
}

proof fn lemma_row_hits_absent(row: Seq<(String, u64)>, fp: Seq<char>)
    requires
        forall|x: int| 0 <= x < row.len() ==> (#[trigger] row[x]).0@ != fp,
    ensures
        row_hits(row, fp) == 0,
    decreases row.len(),
{
    if row.len() > 0 {
        lemma_row_hits_absent(row.drop_last(), fp);
    }
}

proof fn lemma_row_pair_total_step(row: Seq<(String, u64)>, ps: Seq<PatternInstanceInput>, cat: Seq<char>, p: PatternInstanceInput)
    ensures
        row_pair_total(row, ps.push(p), cat) == row_pair_total(row, ps, cat) + (if p.category@ == cat {
            row_hits(row, p.fingerprint@)
        } else {
            0
        }),
    decreases row.len(),
{
    assert(ps.push(p).drop_last() =~= ps);
    if row.len() > 0 {
        lemma_row_pair_total_step(row.drop_last(), ps, cat, p);
    }
}

proof fn lemma_row_total_counts(row: Seq<(String, u64)>, ps: Seq<PatternInstanceInput>, cat: Seq<char>, k: int)
    requires
        row_counted(row, cat, ps),
        0 <= k <= ps.len(),
        forall|fp: Seq<char>| pair_count(ps, cat, fp) > 0 ==> exists|x: int| 0 <= x < row.len() && (#[trigger] row[x]).0@ == fp,
    ensures
        row_pair_total(row, ps.take(k), cat) == category_count(ps.take(k), cat),
    decreases k,
{
    if k == 0 {
        lemma_row_pair_total_empty(row, ps.take(0), cat);
        assert(ps.take(0).len() == 0);
    } else {
        lemma_row_total_counts(row, ps, cat, k - 1);
        let q = ps.take(k - 1);
        let p = ps[k - 1];
        assert(ps.take(k) =~= q.push(p));
        lemma_row_pair_total_step(row, q, cat, p);
        assert(ps.take(k).drop_last() =~= q);
        if p.category@ == cat {
            lemma_pair_count_at(ps, k - 1);
            let x = choose|x: int| 0 <= x < row.len() && (#[trigger] row[x]).0@ == p.fingerprint@;
            lemma_row_hits_one(row, p.fingerprint@, x);
        }
    }
}

proof fn lemma_row_pair_total_empty(row: Seq<(String, u64)>, ps: Seq<PatternInstanceInput>, cat: Seq<char>)
    requires
        ps.len() == 0,
    ensures
        row_pair_total(row, ps, cat) == 0,
    decreases row.len(),
{
    if row.len() > 0 {
        lemma_row_pair_total_empty(row.drop_last(), ps, cat);
    }
}

proof fn lemma_pair_count_at(ps: Seq<PatternInstanceInput>, i: int)
    requires
        0 <= i < ps.len(),
    ensures
        pair_count(ps, ps[i].category@, ps[i].fingerprint@) > 0,
    decreases ps.len(),
{
    if i < ps.len() - 1 {
        assert(ps.drop_last()[i] == ps[i]);
        lemma_pair_count_at(ps.drop_last(), i);
    }
}

proof fn lemma_row_total_is_pair_total(row: Seq<(String, u64)>, ps: Seq<PatternInstanceInput>, cat: Seq<char>)
    requires
        row_counted(row, cat, ps),
    ensures
        row_total(row) == row_pair_total(row, ps, cat),
    decreases row.len(),
{
    if row.len() > 0 {
        let r = row.drop_last();
        assert forall|x: int, y: int| 0 <= x < y < r.len() implies (#[trigger] r[x]).0@ != (#[trigger] r[y]).0@ by {
            assert(r[x] == row[x] && r[y] == row[y]);
        }
        assert forall|x: int| 0 <= x < r.len() implies (#[trigger] r[x]).1 == pair_count(ps, cat, r[x].0@) && r[x].1 > 0 by {
            assert(r[x] == row[x]);
        }
        lemma_row_total_is_pair_total(r, ps, cat);
        assert(row.last() == row[row.len() - 1]);
    }
}

/// The fingerprint counts of a category add up to the number of instances
/// in that category: every instance is counted once, under its fingerprint.
pub proof fn lemma_category_counts_total(groups: Seq<CategoryCounts>, ps: Seq<PatternInstanceInput>, g: int)
    requires
        groups_counted(groups, ps),
        0 <= g < groups.len(),
    ensures
        row_total(groups[g].fingerprints@) == category_count(ps, groups[g].category@),
{
    let row = groups[g].fingerprints@;
    let cat = groups[g].category@;
    assert(row_counted(row, cat, ps));
    assert forall|fp: Seq<char>| pair_count(ps, cat, fp) > 0 implies exists|x: int| 0 <= x < row.len() && (#[trigger] row[x]).0@ == fp by {
        let j = lemma_pair_count_witness(ps, cat, fp);
        assert(is_listed(groups, ps[j]));
        let (h, x) = choose|h: int, x: int|
            0 <= h < groups.len() && 0 <= x < groups[h].fingerprints@.len() && (#[trigger] groups[h]).category@
                == ps[j].category@ && (#[trigger] groups[h].fingerprints@[x]).0@ == ps[j].fingerprint@;
        if h != g {
            if h < g {
                assert(groups[h].category@ != groups[g].category@);
            } else {
                assert(groups[g].category@ != groups[h].category@);
            }
        }
        assert(row[x].0@ == fp);
    }
    lemma_row_total_counts(row, ps, cat, ps.len() as int);
    assert(ps.take(ps.len() as int) =~= ps);
    lemma_row_total_is_pair_total(row, ps, cat);
}

} // verus!
