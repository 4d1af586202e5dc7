//! File paths as strings, compared component by component the way
//! `std::path::Path` compares Unix paths: repeated separators and `.`
//! components after the start are ignored.
use vstd::prelude::*;
use crate::text::chars_of;

verus! {

/// The `/`-separated segments of `s`, empty ones included.
pub open spec fn segments(s: Seq<char>) -> Seq<Seq<char>>
    decreases s.len(),
{
    if s.len() == 0 {
        seq![Seq::<char>::empty()]
    } else if s.last() == '/' {
        segments(s.drop_last()).push(Seq::<char>::empty())
    } else {
        let r = segments(s.drop_last());
        r.update(r.len() - 1, r.last().push(s.last()))
    }
}

/// The components after the first: non-empty segments other than `.`.
pub open spec fn body_components(segs: Seq<Seq<char>>) -> Seq<Seq<char>>
    decreases segs.len(),
{
    if segs.len() == 0 {
        Seq::empty()
    } else {
        let rest = body_components(segs.drop_last());
        let seg = segs.last();
        if seg.len() == 0 || seg == seq!['.'] {
            rest
        } else {
            rest.push(seg)
        }
    }
}

/// The components of a path: `/` for a root, `.` for a leading current
/// directory, `..` for a parent, and the names.
pub open spec fn components(s: Seq<char>) -> Seq<Seq<char>> {
    let head = if s.len() > 0 && s[0] == '/' {
        seq![seq!['/']]
    } else if segments(s)[0] == seq!['.'] {
        seq![seq!['.']]
    } else {
        Seq::empty()
    };
    head + body_components(segments(s))
}

/// Rank of a component in `std::path::Component` order: root, current
/// directory, parent directory, then names.
pub open spec fn component_rank(c: Seq<char>) -> int {
    if c == seq!['/'] {
        1
    } else if c == seq!['.'] {
        2
    } else if c == seq!['.', '.'] {
        3
    } else {
        4
    }
}

/// Lexicographic order on character sequences (the byte order of UTF-8).
pub open spec fn chars_lt(a: Seq<char>, b: Seq<char>) -> bool
    decreases a.len(),
{
    if a.len() == 0 {
        b.len() > 0
    } else if b.len() == 0 {
        false
    } else if a[0] != b[0] {
        a[0] < b[0]
    } else {
        chars_lt(a.drop_first(), b.drop_first())
    }
}

/// Order on single components.
pub open spec fn component_lt(a: Seq<char>, b: Seq<char>) -> bool {
    component_rank(a) < component_rank(b) || (component_rank(a) == 4 && component_rank(b) == 4
        && chars_lt(a, b))
}

/// Lexicographic order on component sequences.
pub open spec fn components_lt(a: Seq<Seq<char>>, b: Seq<Seq<char>>) -> bool
    decreases a.len(),
{
    if a.len() == 0 {
        b.len() > 0
    } else if b.len() == 0 {
        false
    } else if a[0] != b[0] {
        component_lt(a[0], b[0])
    } else {
        components_lt(a.drop_first(), b.drop_first())
    }
}

/// `a` and `b` name the same path.
pub open spec fn path_eq(a: Seq<char>, b: Seq<char>) -> bool {
    components(a) == components(b)
}

/// Views of a list of character vectors.
pub open spec fn views(v: Seq<Vec<char>>) -> Seq<Seq<char>> {
    v.map_values(|x: Vec<char>| x@)
}

/// Splits a path, given as characters, into its components.
pub fn char_components(c: &Vec<char>) -> (r: Vec<Vec<char>>)
    ensures
        views(r@) == components(c@),
{
    let mut segs: Vec<Vec<char>> = Vec::new();
    let mut cur: Vec<char> = Vec::new();
    let mut i: usize = 0;
    while i < c.len()
        invariant
            0 <= i <= c.len(),
            views(segs@).push(cur@) == segments(c@.take(i as int)),
        decreases c.len() - i,
    {
        let ch = c[i];
        proof {
            assert(c@.take(i + 1).drop_last() =~= c@.take(i as int));
        }
        if ch == '/' {
            let ghost before = views(segs@).push(cur@);
            let done = cur;
            segs.push(done);
            cur = Vec::new();
            assert(views(segs@).push(cur@) =~= before.push(Seq::<char>::empty()));
        } else {
            let ghost before = views(segs@).push(cur@);
            cur.push(ch);
            assert(views(segs@).push(cur@) =~= before.update(before.len() - 1, before.last().push(ch)));
        }
        i = i + 1;
    }
    assert(c@.take(c.len() as int) =~= c@);
    segs.push(cur);
    let ghost sv = views(segs@);
    assert(sv == segments(c@));
    let mut out: Vec<Vec<char>> = Vec::new();
    if c.len() > 0 && c[0] == '/' {
        let mut root: Vec<char> = Vec::new();
        root.push('/');
        out.push(root);
    } else if segs[0].len() == 1 && segs[0][0] == '.' {
        let mut dot: Vec<char> = Vec::new();
        dot.push('.');
        out.push(dot);
        assert(sv[0] =~= seq!['.']);
    } else {
        assert(sv[0] != seq!['.']) by {
            if sv[0] == seq!['.'] {
                assert(sv[0].len() == 1 && sv[0][0] == '.');
            }
        }
    }
    let ghost head = views(out@);
    assert(head == components(c@).take(head.len() as int)) by {
        assert(head =~= components(c@).subrange(0, head.len() as int));
    }
    let mut k: usize = 0;
    while k < segs.len()
        invariant
            0 <= k <= segs.len(),
            sv == views(segs@),
            views(out@) == head + body_components(sv.take(k as int)),
        decreases segs.len() - k,
    {
        proof {
            assert(sv.take(k + 1).drop_last() =~= sv.take(k as int));
        }
        let seg = &segs[k];
        let skip = seg.len() == 0 || (seg.len() == 1 && seg[0] == '.');
        proof {
            assert(skip <==> (sv[k as int].len() == 0 || sv[k as int] == seq!['.'])) by {
                if sv[k as int] == seq!['.'] {
                    assert(sv[k as int].len() == 1 && sv[k as int][0] == '.');
                }
                if seg@.len() == 1 && seg@[0] == '.' {
                    assert(seg@ =~= seq!['.']);
                }
            }
        }
        if !skip {
            let copy = seg.clone();
            let ghost before = views(out@);
            out.push(copy);
            assert(views(out@) =~= before.push(sv[k as int]));
        }
        k = k + 1;
    }
    assert(sv.take(segs.len() as int) =~= sv);
    out
}

/// Splits a path into its components.
pub fn path_components(s: &str) -> (r: Vec<Vec<char>>)
    ensures
        views(r@) == components(s@),
{
    let c = chars_of(s);
    char_components(&c)
}

pub(crate) fn chars_less(a: &Vec<char>, b: &Vec<char>) -> (r: bool)
    ensures
        r == chars_lt(a@, b@),
{
    let mut i: usize = 0;
    assert(a@.skip(0) =~= a@);
    assert(b@.skip(0) =~= b@);
    while i < a.len() && i < b.len() && a[i] == b[i]
        invariant
            0 <= i <= a.len(),
            i <= b.len(),
            chars_lt(a@, b@) == chars_lt(a@.skip(i as int), b@.skip(i as int)),
        decreases a.len() - i,
    {
        proof {
            assert(a@.skip(i as int).drop_first() =~= a@.skip(i + 1));
            assert(b@.skip(i as int).drop_first() =~= b@.skip(i + 1));
        }
        i = i + 1;
    }
    if i == a.len() {
        i < b.len()
    } else if i == b.len() {
        false
    } else {
        a[i] < b[i]
    }
}

pub(crate) fn chars_equal(a: &Vec<char>, b: &Vec<char>) -> (r: bool)
    ensures
        r == (a@ == b@),
{
    if a.len() != b.len() {
        return false;
    }
    let mut i: usize = 0;
    while i < a.len()
        invariant
            0 <= i <= a.len(),
            a.len() == b.len(),
            forall|j: int| 0 <= j < i ==> a@[j] == b@[j],
        decreases a.len() - i,
    {
        if a[i] != b[i] {
            return false;
        }
        i = i + 1;
    }
    assert(a@ =~= b@);
    true
}

fn rank(c: &Vec<char>) -> (r: u8)
    ensures
        r == component_rank(c@),
{
    if c.len() == 1 && c[0] == '/' {
        assert(c@ =~= seq!['/']);
        1
    } else if c.len() == 1 && c[0] == '.' {
        assert(c@ =~= seq!['.']);
        2
    } else if c.len() == 2 && c[0] == '.' && c[1] == '.' {
        assert(c@ =~= seq!['.', '.']);
        3
    } else {
        proof {
            if c@ == seq!['/'] || c@ == seq!['.'] || c@ == seq!['.', '.'] {
                assert(c@.len() <= 2);
            }
        }
        4
    }
}

/// Whether string `a` sorts before string `b`, character by character.
pub(crate) fn string_less(a: &String, b: &String) -> (r: bool)
    ensures
        r == chars_lt(a@, b@),
{
    chars_less(&chars_of(a.as_str()), &chars_of(b.as_str()))
}

/// Whether path components `a` sort before path components `b`.
pub fn components_less(a: &Vec<Vec<char>>, b: &Vec<Vec<char>>) -> (r: bool)
    ensures
        r == components_lt(views(a@), views(b@)),
{
    let mut i: usize = 0;
    assert(views(a@).skip(0) =~= views(a@));
    assert(views(b@).skip(0) =~= views(b@));
    while i < a.len() && i < b.len() && chars_equal(&a[i], &b[i])
        invariant
            0 <= i <= a.len(),
            i <= b.len(),
            components_lt(views(a@), views(b@)) == components_lt(views(a@).skip(i as int), views(b@).skip(i as int)),
        decreases a.len() - i,
    {
        proof {
            assert(views(a@).skip(i as int).drop_first() =~= views(a@).skip(i + 1));
            assert(views(b@).skip(i as int).drop_first() =~= views(b@).skip(i + 1));
        }
        i = i + 1;
    }
    if i == a.len() {
        i < b.len()
    } else if i == b.len() {
        false
    } else {
        let ra = rank(&a[i]);
        let rb = rank(&b[i]);
        ra < rb || (ra == 4 && rb == 4 && chars_less(&a[i], &b[i]))
    }
}

/// Whether two component lists are equal.
pub fn components_equal(a: &Vec<Vec<char>>, b: &Vec<Vec<char>>) -> (r: bool)
    ensures
        r == (views(a@) == views(b@)),
{
    if a.len() != b.len() {
        assert(views(a@).len() != views(b@).len());
        return false;
    }
    let mut i: usize = 0;
    while i < a.len()
        invariant
            0 <= i <= a.len(),
            a.len() == b.len(),
            forall|j: int| 0 <= j < i ==> views(a@)[j] == views(b@)[j],
        decreases a.len() - i,
    {
        if !chars_equal(&a[i], &b[i]) {
            assert(views(a@)[i as int] != views(b@)[i as int]);
            return false;
        }
        i = i + 1;
    }
    assert(views(a@) =~= views(b@));
    true
}

pub(crate) proof fn lemma_chars_lt_order(a: Seq<char>, b: Seq<char>, c: Seq<char>)
    ensures
        !chars_lt(a, a),
        chars_lt(a, b) && chars_lt(b, c) ==> chars_lt(a, c),
        chars_lt(a, b) || chars_lt(b, a) || a == b,
        chars_lt(a, b) ==> !chars_lt(b, a),
    decreases a.len(),
{
    if a.len() > 0 && b.len() > 0 && c.len() > 0 {
        lemma_chars_lt_order(a.drop_first(), b.drop_first(), c.drop_first());
    }
    if a.len() > 0 && b.len() > 0 {
        lemma_chars_lt_order(a.drop_first(), b.drop_first(), b.drop_first());
        if a[0] == b[0] && a.drop_first() == b.drop_first() {
            assert forall|i: int| 0 <= i < a.len() implies a[i] == b[i] by {
                if i > 0 {
                    assert(a[i] == a.drop_first()[i - 1]);
                    assert(b[i] == b.drop_first()[i - 1]);
                }
            }
            assert(a =~= b);
        }
    }
    if a.len() > 0 {
        lemma_chars_lt_order(a.drop_first(), a.drop_first(), a.drop_first());
    }
}

proof fn lemma_component_lt_order(a: Seq<char>, b: Seq<char>, c: Seq<char>)
    ensures
        !component_lt(a, a),
        component_lt(a, b) && component_lt(b, c) ==> component_lt(a, c),
        component_lt(a, b) || component_lt(b, a) || a == b,
        component_lt(a, b) ==> !component_lt(b, a),
{
    lemma_chars_lt_order(a, b, c);
    lemma_chars_lt_order(a, a, a);
    lemma_chars_lt_order(b, a, a);
    if component_rank(a) == component_rank(b) && component_rank(a) < 4 {
        assert(a == b);
    }
}

/// Path order is a strict total order on component lists.
pub proof fn lemma_components_lt_order(a: Seq<Seq<char>>, b: Seq<Seq<char>>, c: Seq<Seq<char>>)
    ensures
        !components_lt(a, a),
        components_lt(a, b) && components_lt(b, c) ==> components_lt(a, c),
        components_lt(a, b) || components_lt(b, a) || a == b,
        components_lt(a, b) ==> !components_lt(b, a),
    decreases a.len(),
{
    if a.len() > 0 && b.len() > 0 && c.len() > 0 {
        lemma_components_lt_order(a.drop_first(), b.drop_first(), c.drop_first());
        lemma_component_lt_order(a[0], b[0], c[0]);
    }
    if a.len() > 0 && b.len() > 0 {
        lemma_components_lt_order(a.drop_first(), b.drop_first(), b.drop_first());
        lemma_component_lt_order(a[0], b[0], b[0]);
        if a[0] == b[0] && a.drop_first() == b.drop_first() {
            assert forall|i: int| 0 <= i < a.len() implies a[i] == b[i] by {
                if i > 0 {
                    assert(a[i] == a.drop_first()[i - 1]);
                    assert(b[i] == b.drop_first()[i - 1]);
                }
            }
            assert(a =~= b);
        }
    }
    if a.len() > 0 {
        lemma_components_lt_order(a.drop_first(), a.drop_first(), a.drop_first());
        lemma_component_lt_order(a[0], a[0], a[0]);
    }
}

} // verus!
