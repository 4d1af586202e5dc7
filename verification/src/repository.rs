//! The parts of parsing a repository that decide rather than read: which
//! language adapter handles a file, and the order of the parsed records.
use vstd::prelude::*;
use crate::feature_record::FeatureRecord;
use crate::path::{components, components_less, components_lt, lemma_components_lt_order, path_components, views};
use crate::text::{chars_of, push_char};

verus! {

/// The extension that `std::path::Path::extension` finds in `path`: the text
/// after the last `.` of the file name, unless the name has no `.` other than
/// a leading one; none when there is no file name.
pub uninterp spec fn path_extension(path: Seq<char>) -> Option<Seq<char>>;

/// Calls `std::path::Path::new(path).extension()` and turns the extension
/// into a `String` (a path made from a `&str` is valid UTF-8, so nothing is
/// lost). Claimed: the result is a function of the path text alone.
#[verifier::external_body]
fn std_path_extension(path: &str) -> (r: Option<String>)
    ensures
        match r {
            Some(e) => path_extension(path@) == Some(e@),
            None => path_extension(path@) is None,
        },
{
    match std::path::Path::new(path).extension() {
        Some(e) => Some(e.to_string_lossy().into_owned()),
        None => None,
    }
}

/// An adapter's extension list holds `ext` with a leading dot.
pub open spec fn handles(exts: Seq<String>, ext: Seq<char>) -> bool {
    exists|j: int| 0 <= j < exts.len() && (#[trigger] exts[j])@ == seq!['.'] + ext
}

/// `r` is the first adapter, by its list of extensions, that handles the
/// extension of `path`; none when the path has no extension or no adapter
/// handles it.
pub open spec fn chosen_adapter(adapters: Seq<Vec<String>>, path: Seq<char>, r: Option<usize>) -> bool {
    match path_extension(path) {
        None => r is None,
        Some(e) => match r {
            Some(i) => i < adapters.len() && handles(adapters[i as int]@, e) && forall|j: int|
                0 <= j < i ==> !handles(#[trigger] adapters[j]@, e),
            None => forall|j: int| 0 <= j < adapters.len() ==> !handles(#[trigger] adapters[j]@, e),
        },
    }
}

fn lists_extension(exts: &Vec<String>, dotted: &String) -> (r: bool)
    ensures
        r == exists|j: int| 0 <= j < exts@.len() && (#[trigger] exts@[j])@ == dotted@,
{
    let mut j: usize = 0;
    while j < exts.len()
        invariant
            0 <= j <= exts.len(),
            forall|k: int| 0 <= k < j ==> (#[trigger] exts@[k])@ != dotted@,
        decreases exts.len() - j,
    {
        if exts[j] == *dotted {
            return true;
        }
        j = j + 1;
    }
    false
}

/// Chooses the adapter for the file at `path`: the first one whose
/// extensions (each with its leading dot) include the path's extension.
pub fn adapter_for(path: &str, adapters: &Vec<Vec<String>>) -> (r: Option<usize>)
    ensures
        chosen_adapter(adapters@, path@, r),
{
    let ext = match std_path_extension(path) {
        Some(e) => e,
        None => return None,
    };
    let chars = chars_of(ext.as_str());
    let mut dotted = String::new();
    push_char(&mut dotted, '.');
    let mut k: usize = 0;
    while k < chars.len()
        invariant
            0 <= k <= chars.len(),
            dotted@ == seq!['.'] + chars@.take(k as int),
        decreases chars.len() - k,
    {
        let ghost before = dotted@;
        push_char(&mut dotted, chars[k]);
        assert(chars@.take(k + 1) =~= chars@.take(k as int).push(chars@[k as int]));
        assert(dotted@ =~= seq!['.'] + chars@.take(k + 1));
        k = k + 1;
    }
    assert(chars@.take(chars.len() as int) =~= chars@);
    let mut i: usize = 0;
    while i < adapters.len()
        invariant
            0 <= i <= adapters.len(),
            path_extension(path@) == Some(ext@),
            dotted@ == seq!['.'] + ext@,
            forall|j: int| 0 <= j < i ==> !handles(#[trigger] adapters@[j]@, ext@),
        decreases adapters.len() - i,
    {
        if lists_extension(&adapters[i], &dotted) {
            return Some(i);
        }
        i = i + 1;
    }
    None
}

/// The path components of a record's path.
pub open spec fn record_key(r: FeatureRecord) -> Seq<Seq<char>> {
    components(r.path@)
}

/// `out` is in order of path (as `std::path::Path` orders paths: component
/// by component).
pub open spec fn sorted_by_path(out: Seq<FeatureRecord>) -> bool {
    forall|a: int, b: int| 0 <= a < b < out.len() ==> !components_lt(record_key(#[trigger] out[b]), record_key(#[trigger] out[a]))
}

/// Sorts records by path, keeping records with the same path in their
/// input order.
pub fn sort_records_by_path(records: Vec<FeatureRecord>) -> (out: Vec<FeatureRecord>)
    ensures
        out@.to_multiset() == records@.to_multiset(),
        sorted_by_path(out@),
{
    let ghost orig = records@;
    let mut v = records;
    let mut out: Vec<FeatureRecord> = Vec::new();
    proof {
        vstd::seq_lib::to_multiset_len(out@);
        vstd::multiset::lemma_multiset_empty_len(out@.to_multiset());
    }
    while v.len() > 0
        invariant
            out@.to_multiset().add(v@.to_multiset()) == orig.to_multiset(),
            sorted_by_path(out@),
        decreases v.len(),
    {
        let ghost v0 = v@;
        let x = v.remove(0);
        proof {
            vstd::seq_lib::to_multiset_remove(v0, 0);
        }
        let xk = path_components(x.path.as_str());
        let mut p: usize = 0;
        while p < out.len() && !components_less(&xk, &path_components(out[p].path.as_str()))
            invariant
                0 <= p <= out.len(),
                views(xk@) == record_key(x),
                forall|j: int| 0 <= j < p ==> !components_lt(record_key(x), record_key(#[trigger] out@[j])),
            decreases out.len() - p,
        {
            p = p + 1;
        }
        let ghost o0 = out@;
        proof {
            assert forall|j: int| p <= j < o0.len() implies !components_lt(record_key(#[trigger] o0[j]), record_key(x)) by {
                if p < o0.len() {
                    assert(components_lt(record_key(x), record_key(o0[p as int])));
                    lemma_components_lt_order(record_key(o0[j]), record_key(x), record_key(o0[p as int]));
                    if components_lt(record_key(o0[j]), record_key(x)) {
                        if j > p {
                            assert(!components_lt(record_key(o0[j]), record_key(o0[p as int])));
                        } else {
                            lemma_components_lt_order(record_key(o0[j]), record_key(o0[j]), record_key(o0[j]));
                        }
                    }
                }
            }
        }
        out.insert(p, x);
        proof {
            vstd::seq_lib::to_multiset_insert(o0, p as int, x);
            assert(out@.to_multiset() == o0.to_multiset().insert(x));
            assert(v0.to_multiset() == v@.to_multiset().insert(x)) by {
                assert(v0[0] == x);
                assert(v0.to_multiset().remove(x).insert(x) =~= v0.to_multiset()) by {
                    assert(v0.to_multiset().count(x) > 0) by {
                        vstd::seq_lib::to_multiset_contains(v0, x);
                        assert(v0.contains(x));
                    }
                }
            }
            assert(out@.to_multiset().add(v@.to_multiset()) =~= o0.to_multiset().add(v0.to_multiset()));
            assert forall|a: int, b: int| 0 <= a < b < out@.len() implies !components_lt(record_key(#[trigger] out@[b]), record_key(#[trigger] out@[a])) by {
                let ka = if a < p { o0[a] } else if a == p { x } else { o0[a - 1] };
                let kb = if b < p { o0[b] } else if b == p { x } else { o0[b - 1] };
                assert(out@[a] == ka);
                assert(out@[b] == kb);
                if a < p && b > p {
                    lemma_components_lt_order(record_key(o0[b - 1]), record_key(x), record_key(o0[a]));
                }
            }
        }
    }
    proof {
        vstd::seq_lib::to_multiset_len(v@);
        vstd::multiset::lemma_multiset_empty_len(v@.to_multiset());
        assert(out@.to_multiset().add(v@.to_multiset()) =~= out@.to_multiset());
    }
    out
}

} // verus!
