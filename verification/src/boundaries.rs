//! Violations of a declared boundary specification.
use vstd::prelude::*;
use crate::coupling::{all_ids_valid, first_invalid_error, validate_node_ids};
use crate::error::AnalysisError;
use crate::input::{BoundaryDefInput, BoundarySpecInput, DependencyGraphInput, EdgeInput};

verus! {

/// Whether globset matches `path` against the glob `pattern`; a pattern
/// globset rejects, or whose matcher it refuses to build, matches nothing.
pub uninterp spec fn glob_match(pattern: Seq<char>, path: Seq<char>) -> bool;

/// The glob patterns this library hands to globset are shorter than this
/// many characters: globset builds a literal glob into an Aho-Corasick
/// automaton and unwraps the result, which fails only far beyond it.
pub open spec fn glob_fits(pattern: Seq<char>) -> bool {
    pattern.len() < 0x1000_0000
}

/// Calls `globset::Glob::new(pattern)`; when the pattern is valid, builds a
/// one-glob `GlobSet` with `GlobSetBuilder` and asks `is_match(path)`. An
/// invalid pattern, or a set globset refuses to build (its regex size limit),
/// gives `false`. Claimed: for the build target, the answer depends on the
/// pattern and the path alone (globset's defaults differ by platform).
#[verifier::external_body]
pub(crate) fn glob_is_match(pattern: &str, path: &str) -> (r: bool)
    requires
        glob_fits(pattern@),
    ensures
        r == glob_match(pattern@, path@),
{
    match globset::Glob::new(pattern) {
        Ok(glob) => {
            let mut builder = globset::GlobSetBuilder::new();
            builder.add(glob);
            match builder.build() {
                Ok(set) => set.is_match(path),
                Err(_) => false,
            }
        },
        Err(_) => false,
    }
}

/// Every module glob of every boundary fits globset's limits.
pub open spec fn boundary_globs_fit(bs: Seq<BoundaryDefInput>) -> bool {
    forall|i: int, k: int| 0 <= i < bs.len() && 0 <= k < bs[i].modules.len() ==> glob_fits(#[trigger] bs[i].modules@[k]@)
}

/// Result of `compute_boundary_violations`.
#[derive(Debug, Clone, PartialEq)]
pub struct BoundaryViolationResult {
    /// Total number of cross-boundary dependency violations.
    pub violation_count: u32,
    /// Pairs `(from_node_id, to_node_id)` that cross a boundary.
    pub violations: Vec<(String, String)>,
}

/// `path` belongs to boundary `b`: one of its module globs matches it.
pub open spec fn in_boundary(b: BoundaryDefInput, path: Seq<char>) -> bool {
    exists|k: int| 0 <= k < b.modules.len() && glob_match(#[trigger] b.modules@[k]@, path)
}

/// Index of the first declared boundary that `path` belongs to, or -1.
pub open spec fn boundary_of(bs: Seq<BoundaryDefInput>, path: Seq<char>) -> int
    decreases bs.len(),
{
    if bs.len() == 0 {
        -1
    } else if in_boundary(bs[0], path) {
        0
    } else {
        let r = boundary_of(bs.drop_first(), path);
        if r < 0 {
            -1
        } else {
            r + 1
        }
    }
}

/// Boundary `b` lists `name` among those it may import from.
pub open spec fn allows(b: BoundaryDefInput, name: Seq<char>) -> bool {
    exists|k: int| 0 <= k < b.allow_imports_from.len() && #[trigger] b.allow_imports_from@[k]@ == name
}

/// Edge `e` leaves one declared boundary for another that its own boundary
/// does not allow importing from.
pub open spec fn is_violation(bs: Seq<BoundaryDefInput>, e: EdgeInput) -> bool {
    let s = boundary_of(bs, e.source@);
    let t = boundary_of(bs, e.target@);
    s >= 0 && t >= 0 && s != t && !allows(bs[s], bs[t].name@)
}

/// The violating edges of `edges`, as `(source, target)`, in input order.
pub open spec fn violations_of(bs: Seq<BoundaryDefInput>, edges: Seq<EdgeInput>) -> Seq<(Seq<char>, Seq<char>)>
    decreases edges.len(),
{
    if edges.len() == 0 {
        Seq::empty()
    } else {
        let r = violations_of(bs, edges.drop_last());
        let e = edges.last();
        if is_violation(bs, e) {
            r.push((e.source@, e.target@))
        } else {
            r
        }
    }
}

/// The views of a list of ID pairs.
pub open spec fn pair_views(v: Seq<(String, String)>) -> Seq<(Seq<char>, Seq<char>)> {
    v.map_values(|p: (String, String)| (p.0@, p.1@))
}

fn belongs_to(b: &BoundaryDefInput, path: &str) -> (r: bool)
    requires
        forall|k: int| 0 <= k < b.modules.len() ==> glob_fits(#[trigger] b.modules@[k]@),
    ensures
        r == in_boundary(*b, path@),
{
    let mut k: usize = 0;
    while k < b.modules.len()
        invariant
            0 <= k <= b.modules.len(),
            forall|j: int| 0 <= j < b.modules.len() ==> glob_fits(#[trigger] b.modules@[j]@),
            forall|j: int| 0 <= j < k ==> !glob_match(#[trigger] b.modules@[j]@, path@),
        decreases b.modules.len() - k,
    {
        if glob_is_match(b.modules[k].as_str(), path) {
            return true;
        }
        k = k + 1;
    }
    false
}

fn boundary_index(bs: &Vec<BoundaryDefInput>, path: &str) -> (r: Option<usize>)
    requires
        boundary_globs_fit(bs@),
    ensures
        match r {
            Some(i) => i == boundary_of(bs@, path@) && i < bs.len(),
            None => boundary_of(bs@, path@) == -1,
        },
{
    let mut i: usize = 0;
    assert(bs@.skip(0) =~= bs@);
    while i < bs.len()
        invariant
            0 <= i <= bs.len(),
            boundary_globs_fit(bs@),
            boundary_of(bs@, path@) == (if boundary_of(bs@.skip(i as int), path@) < 0 {
                -1
            } else {
                boundary_of(bs@.skip(i as int), path@) + i
            }),
        decreases bs.len() - i,
    {
        assert(bs@.skip(i as int).drop_first() =~= bs@.skip(i + 1));
        assert(bs@.skip(i as int)[0] == bs@[i as int]);
        assert forall|k: int| 0 <= k < bs@[i as int].modules.len() implies glob_fits(#[trigger] bs@[i as int].modules@[k]@) by {}
        if belongs_to(&bs[i], path) {
            return Some(i);
        }
        i = i + 1;
    }
    assert(bs@.skip(bs.len() as int).len() == 0);
    None
}

fn may_import(b: &BoundaryDefInput, name: &String) -> (r: bool)
    ensures
        r == allows(*b, name@),
{
    let mut k: usize = 0;
    while k < b.allow_imports_from.len()
        invariant
            0 <= k <= b.allow_imports_from.len(),
            forall|j: int| 0 <= j < k ==> #[trigger] b.allow_imports_from@[j]@ != name@,
        decreases b.allow_imports_from.len() - k,
    {
        if b.allow_imports_from[k] == *name {
            return true;
        }
        k = k + 1;
    }
    false
}

proof fn lemma_violations_len(bs: Seq<BoundaryDefInput>, edges: Seq<EdgeInput>)
    ensures
        violations_of(bs, edges).len() <= edges.len(),
    decreases edges.len(),
{
    if edges.len() > 0 {
        lemma_violations_len(bs, edges.drop_last());
    }
}

/// Computes boundary violations against a boundary specification.
///
/// A node belongs to the first declared boundary with a module glob that
/// matches its ID.  A violation is an edge from a node of one boundary to a
/// node of another boundary that is not listed in the first one's
/// `allow_imports_from`.  Node IDs are validated first.
pub fn compute_boundary_violations(graph: &DependencyGraphInput, spec: &BoundarySpecInput) -> (r: Result<BoundaryViolationResult, AnalysisError>)
    requires
        graph.edges.len() <= u32::MAX,
        boundary_globs_fit(spec.boundaries@),
    ensures
        r is Ok <==> all_ids_valid(graph.nodes@),
        r matches Err(e) ==> first_invalid_error(graph.nodes@, e),
        r matches Ok(v) ==> pair_views(v.violations@) == violations_of(spec.boundaries@, graph.edges@)
            && v.violation_count == v.violations@.len(),
{
    validate_node_ids(&graph.nodes)?;
    let bs = &spec.boundaries;
    let mut violations: Vec<(String, String)> = Vec::new();
    let mut i: usize = 0;
    while i < graph.edges.len()
        invariant
            0 <= i <= graph.edges.len(),
            graph.edges.len() <= u32::MAX,
            bs == &spec.boundaries,
            boundary_globs_fit(bs@),
            pair_views(violations@) == violations_of(bs@, graph.edges@.take(i as int)),
        decreases graph.edges.len() - i,
    {
        proof {
            assert(graph.edges@.take(i + 1).drop_last() =~= graph.edges@.take(i as int));
            assert(graph.edges@.take(i + 1).last() == graph.edges@[i as int]);
        }
        let e = &graph.edges[i];
        let s = boundary_index(bs, e.source.as_str());
        let t = boundary_index(bs, e.target.as_str());
        match (s, t) {
            (Some(a), Some(b)) => {
                if a != b && !may_import(&bs[a], &bs[b].name) {
                    let ghost before = violations@;
                    violations.push((e.source.clone(), e.target.clone()));
                    assert(pair_views(violations@) =~= pair_views(before).push((e.source@, e.target@)));
                }
            },
            _ => {},
        }
        i = i + 1;
    }
    assert(graph.edges@.take(graph.edges.len() as int) =~= graph.edges@);
    proof {
        lemma_violations_len(bs@, graph.edges@);
    }
    let count = violations.len() as u32;
    Ok(BoundaryViolationResult { violation_count: count, violations })
}

/// With no declared boundaries no edge is a violation.
pub proof fn lemma_no_boundaries_no_violations(edges: Seq<EdgeInput>)
    ensures
        violations_of(Seq::<BoundaryDefInput>::empty(), edges) == Seq::<(Seq<char>, Seq<char>)>::empty(),
    decreases edges.len(),
{
    if edges.len() > 0 {
        lemma_no_boundaries_no_violations(edges.drop_last());
    }
}

/// An edge inside one boundary, or touching a file outside every boundary,
/// is never a violation.
pub proof fn lemma_violation_crosses(bs: Seq<BoundaryDefInput>, e: EdgeInput)
    requires
        boundary_of(bs, e.source@) == boundary_of(bs, e.target@) || boundary_of(bs, e.source@) < 0
            || boundary_of(bs, e.target@) < 0,
    ensures
        !is_violation(bs, e),
{
}

} // verus!
