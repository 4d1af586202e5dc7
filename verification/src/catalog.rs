//! The pattern catalog: per-category pattern fingerprints with their
//! instance counts and locations, built from the pattern hints of parsed
//! source files.
use vstd::prelude::*;
use vstd::utf8::encode_utf8;
use crate::lang_rust::string_views;
use crate::feature_record::{FeatureRecord, PatternHint};
use crate::path::{chars_lt, lemma_chars_lt_order, string_less};
use crate::fingerprint::{fingerprint_node_kind, keyed_blake3, PatternFingerprint, FINGERPRINT_KEY};

verus! {

/// The file path and source position of a single pattern instance.
#[derive(Debug, Clone)]
pub struct PatternLocation {
    /// Source file path relative to the repository root.
    pub file: String,
    /// Zero-indexed source row (line) of the pattern instance.
    pub start_row: usize,
    /// Zero-indexed source column of the pattern instance.
    pub start_col: usize,
}

/// Aggregated statistics for a single pattern fingerprint within one category.
#[derive(Debug, Clone)]
pub struct PatternStats {
    /// Total number of instances across all non-excluded files.
    pub count: u32,
    /// All source locations where this fingerprint was observed.
    pub locations: Vec<PatternLocation>,
}

/// Per-category pattern catalog: `(category, fingerprints)` with each
/// category once and none empty; within a category `(fingerprint, stats)`
/// with each fingerprint once.
#[derive(Debug, Clone)]
pub struct PatternCatalog {
    /// The categories with their fingerprints.
    pub entries: Vec<(String, Vec<(PatternFingerprint, PatternStats)>)>,
}

impl Default for PatternCatalog {
    fn default() -> (c: Self)
        ensures
            c.entries@.len() == 0,
    {
        PatternCatalog { entries: Vec::new() }
    }
}

/// Table entry `entry` lists node kind `kind`.
pub open spec fn lists_kind(entry: (String, Vec<String>), kind: Seq<char>) -> bool {
    exists|x: int| 0 <= x < entry.1@.len() && (#[trigger] entry.1@[x])@ == kind
}

/// The category of node kind `kind`: the first table entry that lists it.
pub open spec fn category_for(table: Seq<(String, Vec<String>)>, kind: Seq<char>) -> Option<Seq<char>>
    decreases table.len(),
{
    if table.len() == 0 {
        None
    } else if lists_kind(table[0], kind) {
        Some(table[0].0@)
    } else {
        category_for(table.drop_first(), kind)
    }
}

/// Whether globset matches `path` with the one `GlobSet` built from the
/// globs among `patterns` that globset accepts; false when globset refuses
/// to build that set.
pub uninterp spec fn globset_match(patterns: Seq<Seq<char>>, path: Seq<char>) -> bool;

/// The number of characters over all of `patterns`.
pub open spec fn total_chars(patterns: Seq<String>) -> nat
    decreases patterns.len(),
{
    if patterns.len() == 0 {
        0
    } else {
        total_chars(patterns.drop_last()) + patterns.last()@.len()
    }
}

/// The exclusion globs fit globset's limits: globset builds literal globs
/// into one Aho-Corasick automaton and unwraps the result, which fails only
/// far beyond this many characters in all.
pub open spec fn globs_fit(patterns: Seq<String>) -> bool {
    total_chars(patterns) < 0x1000_0000
}

/// Adds each of `patterns` that `globset::Glob::new` accepts to a
/// `GlobSetBuilder`, builds the set and asks `GlobSet::is_match(path)`; a set
/// globset refuses to build gives `false`. Claimed: for the build target, the
/// answer depends on the patterns and the path alone.
#[verifier::external_body]
fn globset_is_match(patterns: &Vec<String>, path: &str) -> (r: bool)
    requires
        globs_fit(patterns@),
    ensures
        r == globset_match(string_views(patterns@), path@),
{
    let mut builder = globset::GlobSetBuilder::new();
    for pattern in patterns.iter() {
        if let Ok(glob) = globset::Glob::new(pattern) {
            builder.add(glob);
        }
    }
    match builder.build() {
        Ok(set) => set.is_match(path),
        Err(_) => false,
    }
}

/// `path` is excluded: there are exclusion globs and their set matches it.
pub open spec fn excluded(path: Seq<char>, globs: Seq<String>) -> bool {
    globs.len() > 0 && globset_match(string_views(globs), path)
}

/// The fingerprint of node kind `kind`.
pub open spec fn kind_fingerprint(kind: Seq<char>) -> Seq<u8> {
    keyed_blake3(FINGERPRINT_KEY@, encode_utf8(kind))
}

/// A pattern instance as the catalog sees it: its category, its fingerprint,
/// and its location (file path, start row, start column).
pub type Instance = (Seq<char>, Seq<u8>, (Seq<char>, usize, usize));

/// The instance of each hint with a category in the file at `path`, in order.
pub open spec fn hint_keys(hints: Seq<PatternHint>, table: Seq<(String, Vec<String>)>, path: Seq<char>) -> Seq<Instance>
    decreases hints.len(),
{
    if hints.len() == 0 {
        Seq::empty()
    } else {
        let rest = hint_keys(hints.drop_last(), table, path);
        let h = hints.last();
        match category_for(table, h.node_kind@) {
            Some(c) => rest.push((c, kind_fingerprint(h.node_kind@), (path, h.start_row, h.start_col))),
            None => rest,
        }
    }
}

/// Every pattern instance the catalog counts, in order:
/// the categorised hints of every record whose path no glob excludes.
pub open spec fn catalog_keys(
    records: Seq<FeatureRecord>,
    table: Seq<(String, Vec<String>)>,
    globs: Seq<String>,
) -> Seq<Instance>
    decreases records.len(),
{
    if records.len() == 0 {
        Seq::empty()
    } else {
        let rest = catalog_keys(records.drop_last(), table, globs);
        if excluded(records.last().path@, globs) {
            rest
        } else {
            rest + hint_keys(records.last().pattern_hints@, table, records.last().path@)
        }
    }
}

/// The number of hints over all records.
pub open spec fn total_hints(records: Seq<FeatureRecord>) -> nat
    decreases records.len(),
{
    if records.len() == 0 {
        0
    } else {
        total_hints(records.drop_last()) + records.last().pattern_hints@.len()
    }
}

/// The number of instances with category `cat` and fingerprint `fp`.
pub open spec fn key_count(keys: Seq<Instance>, cat: Seq<char>, fp: Seq<u8>) -> nat
    decreases keys.len(),
{
    if keys.len() == 0 {
        0
    } else {
        key_count(keys.drop_last(), cat, fp) + (if keys.last().0 == cat && keys.last().1 == fp {
            1nat
        } else {
            0nat
        })
    }
}

/// The locations of the instances with category `cat` and fingerprint `fp`,
/// in order.
pub open spec fn located(keys: Seq<Instance>, cat: Seq<char>, fp: Seq<u8>) -> Seq<(Seq<char>, usize, usize)>
    decreases keys.len(),
{
    if keys.len() == 0 {
        Seq::empty()
    } else {
        let rest = located(keys.drop_last(), cat, fp);
        if keys.last().0 == cat && keys.last().1 == fp {
            rest.push(keys.last().2)
        } else {
            rest
        }
    }
}

/// The views of a list of locations: `(file, start row, start column)`.
pub open spec fn location_views(v: Seq<PatternLocation>) -> Seq<(Seq<char>, usize, usize)> {
    v.map_values(|l: PatternLocation| (l.file@, l.start_row, l.start_col))
}

/// Category `cat` and fingerprint `fp` have an entry in `entries`.
pub open spec fn has_entry(entries: Seq<(String, Vec<(PatternFingerprint, PatternStats)>)>, cat: Seq<char>, fp: Seq<u8>) -> bool {
    exists|e: int, x: int|
        0 <= e < entries.len() && 0 <= x < entries[e].1@.len() && (#[trigger] entries[e]).0@ == cat && (
        #[trigger] entries[e].1@[x]).0@ == fp
}

/// Row `row` of category `cat` lists distinct fingerprints in ascending byte
/// order, each with the
/// exact, positive number of its instances among `keys`, at least `min`, and
/// the locations of those instances in order.
pub open spec fn row_ok(row: Seq<(PatternFingerprint, PatternStats)>, cat: Seq<char>, keys: Seq<Instance>, min: u32) -> bool {
    &&& forall|x: int, y: int| 0 <= x < y < row.len() ==> (#[trigger] row[x]).0@ != (#[trigger] row[y]).0@
    &&& forall|x: int, y: int| 0 <= x < y < row.len() ==> bytes_lt((#[trigger] row[x]).0@, (#[trigger] row[y]).0@)
    &&& forall|x: int|
        0 <= x < row.len() ==> {
            let s = (#[trigger] row[x]).1;
            &&& s.count == key_count(keys, cat, row[x].0@)
            &&& s.locations@.len() == s.count
            &&& location_views(s.locations@) == located(keys, cat, row[x].0@)
            &&& s.count >= min
            &&& s.count > 0
        }
}

/// `entries` is the catalog of the instances `keys` with threshold `min`:
/// each category once, in ascending order of category name (character by
/// character, which is the byte order of their UTF-8 text, as `String`
/// orders them), none empty, every row as `row_ok` says, and every
/// `(category, fingerprint)` with at least `min` instances has an entry.
pub open spec fn catalog_of(
    entries: Seq<(String, Vec<(PatternFingerprint, PatternStats)>)>,
    keys: Seq<Instance>,
    min: u32,
) -> bool {
    &&& forall|e: int, f: int| 0 <= e < f < entries.len() ==> (#[trigger] entries[e]).0@ != (#[trigger] entries[f]).0@
    &&& forall|e: int, f: int| 0 <= e < f < entries.len() ==> chars_lt((#[trigger] entries[e]).0@, (#[trigger] entries[f]).0@)
    &&& forall|e: int|
        0 <= e < entries.len() ==> (#[trigger] entries[e]).1@.len() > 0 && row_ok(entries[e].1@, entries[e].0@, keys, min)
    &&& forall|i: int|
        0 <= i < keys.len() && key_count(keys, keys[i].0, keys[i].1) >= min ==> has_entry(
            entries,
            (#[trigger] keys[i]).0,
            keys[i].1,
        )
}

/// One categorised pattern instance of a non-excluded file.
struct Occurrence {
    category: String,
    fingerprint: PatternFingerprint,
    location: PatternLocation,
}

spec fn occ_keys(occ: Seq<Occurrence>) -> Seq<Instance> {
    occ.map_values(|o: Occurrence| (o.category@, o.fingerprint@, (o.location.file@, o.location.start_row, o.location.start_col)))
}

proof fn lemma_hint_keys_len(hints: Seq<PatternHint>, table: Seq<(String, Vec<String>)>, path: Seq<char>)
    ensures
        hint_keys(hints, table, path).len() <= hints.len(),
    decreases hints.len(),
{
    if hints.len() > 0 {
        lemma_hint_keys_len(hints.drop_last(), table, path);
    }
}

proof fn lemma_catalog_keys_len(records: Seq<FeatureRecord>, table: Seq<(String, Vec<String>)>, globs: Seq<String>)
    ensures
        catalog_keys(records, table, globs).len() <= total_hints(records),
    decreases records.len(),
{
    if records.len() > 0 {
        lemma_catalog_keys_len(records.drop_last(), table, globs);
        lemma_hint_keys_len(records.last().pattern_hints@, table, records.last().path@);
    }
}

proof fn lemma_key_count_le(keys: Seq<Instance>, cat: Seq<char>, fp: Seq<u8>)
    ensures
        key_count(keys, cat, fp) <= keys.len(),
    decreases keys.len(),
{
    if keys.len() > 0 {
        lemma_key_count_le(keys.drop_last(), cat, fp);
    }
}

proof fn lemma_key_count_at(keys: Seq<Instance>, i: int)
    requires
        0 <= i < keys.len(),
    ensures
        key_count(keys, keys[i].0, keys[i].1) > 0,
    decreases keys.len(),
{
    if i < keys.len() - 1 {
        assert(keys.drop_last()[i] == keys[i]);
        lemma_key_count_at(keys.drop_last(), i);
    }
}

fn is_excluded(path: &str, globs: &Vec<String>) -> (r: bool)
    requires
        globs_fit(globs@),
    ensures
        r == excluded(path@, globs@),
{
    if globs.len() == 0 {
        false
    } else {
        globset_is_match(globs, path)
    }
}

fn lists(kinds: &Vec<String>, kind: &String) -> (r: bool)
    ensures
        r == exists|x: int| 0 <= x < kinds@.len() && (#[trigger] kinds@[x])@ == kind@,
{
    let mut x: usize = 0;
    while x < kinds.len()
        invariant
            0 <= x <= kinds.len(),
            forall|y: int| 0 <= y < x ==> (#[trigger] kinds@[y])@ != kind@,
        decreases kinds.len() - x,
    {
        if kinds[x] == *kind {
            return true;
        }
        x = x + 1;
    }
    false
}

fn category_index(table: &Vec<(String, Vec<String>)>, kind: &String) -> (r: Option<usize>)
    ensures
        match r {
            Some(i) => i < table.len() && category_for(table@, kind@) == Some(table@[i as int].0@),
            None => category_for(table@, kind@) is None,
        },
{
    let mut i: usize = 0;
    assert(table@.skip(0) =~= table@);
    while i < table.len()
        invariant
            0 <= i <= table.len(),
            category_for(table@, kind@) == category_for(table@.skip(i as int), kind@),
        decreases table.len() - i,
    {
        assert(table@.skip(i as int).drop_first() =~= table@.skip(i + 1));
        assert(table@.skip(i as int)[0] == table@[i as int]);
        if lists(&table[i].1, kind) {
            return Some(i);
        }
        i = i + 1;
    }
    assert(table@.skip(i as int).len() == 0);
    None
}

fn collect_occurrences(
    records: &Vec<FeatureRecord>,
    table: &Vec<(String, Vec<String>)>,
    globs: &Vec<String>,
) -> (occ: Vec<Occurrence>)
    requires
        globs_fit(globs@),
    ensures
        occ_keys(occ@) == catalog_keys(records@, table@, globs@),
{
    let mut occ: Vec<Occurrence> = Vec::new();
    let mut i: usize = 0;
    while i < records.len()
        invariant
            0 <= i <= records.len(),
            globs_fit(globs@),
            occ_keys(occ@) == catalog_keys(records@.take(i as int), table@, globs@),
        decreases records.len() - i,
    {
        let r = &records[i];
        assert(records@.take(i + 1).drop_last() =~= records@.take(i as int));
        assert(records@.take(i + 1).last() == records@[i as int]);
        if !is_excluded(r.path.as_str(), globs) {
            let ghost base = occ_keys(occ@);
            let hints = &r.pattern_hints;
            let mut h: usize = 0;
            assert(hints@.take(0) =~= Seq::<PatternHint>::empty());
            assert(base + hint_keys(hints@.take(0), table@, r.path@) =~= base);
            while h < hints.len()
                invariant
                    0 <= h <= hints.len(),
                    hints == &r.pattern_hints,
                    occ_keys(occ@) == base + hint_keys(hints@.take(h as int), table@, r.path@),
                decreases hints.len() - h,
            {
                let hint = &hints[h];
                assert(hints@.take(h + 1).drop_last() =~= hints@.take(h as int));
                assert(hints@.take(h + 1).last() == hints@[h as int]);
                match category_index(table, &hint.node_kind) {
                    Some(c) => {
                        let ghost before = occ@;
                        let fp = fingerprint_node_kind(hint.node_kind.as_str());
                        occ.push(
                            Occurrence {
                                category: table[c].0.clone(),
                                fingerprint: fp,
                                location: PatternLocation {
                                    file: r.path.clone(),
                                    start_row: hint.start_row,
                                    start_col: hint.start_col,
                                },
                            },
                        );
                        assert(occ_keys(occ@) =~= occ_keys(before).push(
                            (table@[c as int].0@, kind_fingerprint(hint.node_kind@), (r.path@, hint.start_row, hint.start_col)),
                        ));
                    },
                    None => {},
                }
                h = h + 1;
            }
            assert(hints@.take(hints.len() as int) =~= hints@);
        }
        i = i + 1;
    }
    assert(records@.take(records.len() as int) =~= records@);
    occ
}

fn same_fingerprint(a: &PatternFingerprint, b: &PatternFingerprint) -> (r: bool)
    ensures
        r == (a@ == b@),
{
    let mut i: usize = 0;
    while i < 32
        invariant
            0 <= i <= 32,
            a@.len() == 32,
            b@.len() == 32,
            forall|j: int| 0 <= j < i ==> a@[j] == b@[j],
        decreases 32 - i,
    {
        if a.0[i] != b.0[i] {
            return false;
        }
        i = i + 1;
    }
    assert(a@ =~= b@);
    true
}

fn find_string(v: &Vec<String>, s: &String) -> (r: bool)
    ensures
        r == exists|j: int| 0 <= j < v@.len() && (#[trigger] v@[j])@ == s@,
{
    let mut j: usize = 0;
    while j < v.len()
        invariant
            0 <= j <= v.len(),
            forall|k: int| 0 <= k < j ==> (#[trigger] v@[k])@ != s@,
        decreases v.len() - j,
    {
        if v[j] == *s {
            return true;
        }
        j = j + 1;
    }
    false
}

fn find_fingerprint(v: &Vec<PatternFingerprint>, fp: &PatternFingerprint) -> (r: bool)
    ensures
        r == exists|j: int| 0 <= j < v@.len() && (#[trigger] v@[j])@ == fp@,
{
    let mut j: usize = 0;
    while j < v.len()
        invariant
            0 <= j <= v.len(),
            forall|k: int| 0 <= k < j ==> (#[trigger] v@[k])@ != fp@,
        decreases v.len() - j,
    {
        if same_fingerprint(&v[j], fp) {
            return true;
        }
        j = j + 1;
    }
    false
}

spec fn has_category(cats: Seq<String>, c: Seq<char>) -> bool {
    exists|j: int| 0 <= j < cats.len() && (#[trigger] cats[j])@ == c
}

spec fn occurs_category(occ: Seq<Occurrence>, n: int, c: Seq<char>) -> bool {
    exists|k: int| 0 <= k < n && (#[trigger] occ[k]).category@ == c
}

spec fn has_fingerprint(fps: Seq<PatternFingerprint>, f: Seq<u8>) -> bool {
    exists|j: int| 0 <= j < fps.len() && (#[trigger] fps[j])@ == f
}

spec fn occurs_pair(occ: Seq<Occurrence>, n: int, c: Seq<char>, f: Seq<u8>) -> bool {
    exists|k: int| 0 <= k < n && (#[trigger] occ[k]).category@ == c && occ[k].fingerprint@ == f
}

/// Lexicographic order on byte sequences (the order of `[u8]`).
pub open spec fn bytes_lt(a: Seq<u8>, b: Seq<u8>) -> bool
    decreases a.len(),
{
    if a.len() == 0 {
        b.len() > 0
    } else if b.len() == 0 {
        false
    } else if a[0] != b[0] {
        a[0] < b[0]
    } else {
        bytes_lt(a.drop_first(), b.drop_first())
    }
}

proof fn lemma_bytes_lt_order(a: Seq<u8>, b: Seq<u8>, c: Seq<u8>)
    ensures
        !bytes_lt(a, a),
        bytes_lt(a, b) && bytes_lt(b, c) ==> bytes_lt(a, c),
        bytes_lt(a, b) || bytes_lt(b, a) || a == b,
        bytes_lt(a, b) ==> !bytes_lt(b, a),
    decreases a.len(),
{
    if a.len() > 0 && b.len() > 0 && c.len() > 0 {
        lemma_bytes_lt_order(a.drop_first(), b.drop_first(), c.drop_first());
    }
    if a.len() > 0 && b.len() > 0 {
        lemma_bytes_lt_order(a.drop_first(), b.drop_first(), b.drop_first());
        if a[0] == b[0] && a.drop_first() == b.drop_first() {
            assert forall|i: int| 0 <= i < a.len() implies a[i] == b[i] by {
                if i > 0 {
                    assert(a[i] == a.drop_first()[i - 1]);
                    assert(b[i] == b.drop_first()[i - 1]);
                }
            }
            assert(a =~= b);
        }
    }
    if a.len() > 0 {
        lemma_bytes_lt_order(a.drop_first(), a.drop_first(), a.drop_first());
    }
}

fn fingerprint_less(a: &PatternFingerprint, b: &PatternFingerprint) -> (r: bool)
    ensures
        r == bytes_lt(a@, b@),
{
    let mut i: usize = 0;
    assert(a@.skip(0) =~= a@);
    assert(b@.skip(0) =~= b@);
    while i < 32 && a.0[i] == b.0[i]
        invariant
            0 <= i <= 32,
            a@.len() == 32,
            b@.len() == 32,
            bytes_lt(a@, b@) == bytes_lt(a@.skip(i as int), b@.skip(i as int)),
        decreases 32 - i,
    {
        proof {
            assert(a@.skip(i as int).drop_first() =~= a@.skip(i + 1));
            assert(b@.skip(i as int).drop_first() =~= b@.skip(i + 1));
        }
        i = i + 1;
    }
    if i == 32 {
        false
    } else {
        a.0[i] < b.0[i]
    }
}

/// The categories of the occurrences, each once, in ascending order.
fn distinct_categories(occ: &Vec<Occurrence>) -> (cats: Vec<String>)
    ensures
        forall|a: int, b: int| 0 <= a < b < cats@.len() ==> chars_lt((#[trigger] cats@[a])@, (#[trigger] cats@[b])@),
        forall|a: int, b: int| 0 <= a < b < cats@.len() ==> (#[trigger] cats@[a])@ != (#[trigger] cats@[b])@,
        forall|i: int| 0 <= i < occ@.len() ==> has_category(cats@, (#[trigger] occ@[i]).category@),
        forall|j: int| 0 <= j < cats@.len() ==> occurs_category(occ@, occ@.len() as int, (#[trigger] cats@[j])@),
{
    let mut cats: Vec<String> = Vec::new();
    let mut i: usize = 0;
    while i < occ.len()
        invariant
            0 <= i <= occ.len(),
            forall|a: int, b: int| 0 <= a < b < cats@.len() ==> chars_lt((#[trigger] cats@[a])@, (#[trigger] cats@[b])@),
            forall|a: int, b: int| 0 <= a < b < cats@.len() ==> (#[trigger] cats@[a])@ != (#[trigger] cats@[b])@,
            forall|k: int| 0 <= k < i ==> has_category(cats@, (#[trigger] occ@[k]).category@),
            forall|j: int| 0 <= j < cats@.len() ==> occurs_category(occ@, i as int, (#[trigger] cats@[j])@),
        decreases occ.len() - i,
    {
        let c = &occ[i].category;
        let ghost before = cats@;
        if !find_string(&cats, c) {
            let mut p: usize = 0;
            while p < cats.len() && string_less(&cats[p], c)
                invariant
                    0 <= p <= cats.len(),
                    cats@ == before,
                    forall|j: int| 0 <= j < p ==> chars_lt((#[trigger] before[j])@, c@),
                decreases cats.len() - p,
            {
                p = p + 1;
            }
            proof {
                assert forall|j: int| p <= j < before.len() implies chars_lt(c@, (#[trigger] before[j])@) by {
                    lemma_chars_lt_order(before[p as int]@, c@, c@);
                    lemma_chars_lt_order(c@, before[p as int]@, before[j]@);
                    assert(before[p as int]@ != c@);
                }
            }
            cats.insert(p, c.clone());
            let ghost x = c@;
            assert(cats@[p as int]@ == x);
            assert forall|j: int| 0 <= j < cats@.len() implies (#[trigger] cats@[j])@ == (if j < p {
                before[j]@
            } else if j == p {
                x
            } else {
                before[j - 1]@
            }) by {}
            assert forall|a: int, b: int| 0 <= a < b < cats@.len() implies chars_lt((#[trigger] cats@[a])@, (#[trigger] cats@[b])@) by {
                assert(cats@[a]@ == (if a < p { before[a]@ } else if a == p { x } else { before[a - 1]@ }));
                assert(cats@[b]@ == (if b < p { before[b]@ } else if b == p { x } else { before[b - 1]@ }));
                if a < p && b > p {
                    lemma_chars_lt_order(before[a]@, x, before[b - 1]@);
                }
            }
            assert forall|a: int, b: int| 0 <= a < b < cats@.len() implies (#[trigger] cats@[a])@ != (#[trigger] cats@[b])@ by {
                assert(cats@[a]@ == (if a < p { before[a]@ } else if a == p { x } else { before[a - 1]@ }));
                assert(cats@[b]@ == (if b < p { before[b]@ } else if b == p { x } else { before[b - 1]@ }));
            }
            assert forall|k: int| 0 <= k < i + 1 implies has_category(cats@, (#[trigger] occ@[k]).category@) by {
                if k < i {
                    let j = choose|j: int| 0 <= j < before.len() && (#[trigger] before[j])@ == occ@[k].category@;
                    if j < p {
                        assert(cats@[j]@ == before[j]@);
                    } else {
                        assert(cats@[j + 1]@ == before[j]@);
                    }
                } else {
                    assert(cats@[p as int]@ == occ@[k].category@);
                }
            }
            assert forall|j: int| 0 <= j < cats@.len() implies occurs_category(occ@, i + 1, (#[trigger] cats@[j])@) by {
                if j == p {
                    assert(occ@[i as int].category@ == cats@[j]@);
                } else {
                    let jj = if j < p { j } else { j - 1 };
                    assert(cats@[j]@ == before[jj]@);
                    assert(occurs_category(occ@, i as int, before[jj]@));
                    let k = choose|k: int| 0 <= k < i && (#[trigger] occ@[k]).category@ == before[jj]@;
                    assert(occ@[k].category@ == cats@[j]@);
                }
            }
        } else {
            assert(has_category(cats@, occ@[i as int].category@));
            assert forall|j: int| 0 <= j < cats@.len() implies occurs_category(occ@, i + 1, (#[trigger] cats@[j])@) by {
                assert(occurs_category(occ@, i as int, cats@[j]@));
                let k = choose|k: int| 0 <= k < i && (#[trigger] occ@[k]).category@ == cats@[j]@;
                assert(occ@[k].category@ == cats@[j]@);
            }
        }
        i = i + 1;
    }
    cats
}

/// The fingerprints of the occurrences of category `cat`, each once, in
/// ascending byte order.
fn distinct_fingerprints(occ: &Vec<Occurrence>, cat: &String) -> (fps: Vec<PatternFingerprint>)
    ensures
        forall|a: int, b: int| 0 <= a < b < fps@.len() ==> bytes_lt((#[trigger] fps@[a])@, (#[trigger] fps@[b])@),
        forall|a: int, b: int| 0 <= a < b < fps@.len() ==> (#[trigger] fps@[a])@ != (#[trigger] fps@[b])@,
        forall|i: int|
            0 <= i < occ@.len() && (#[trigger] occ@[i]).category@ == cat@ ==> has_fingerprint(fps@, occ@[i].fingerprint@),
        forall|j: int| 0 <= j < fps@.len() ==> occurs_pair(occ@, occ@.len() as int, cat@, (#[trigger] fps@[j])@),
{
    let mut fps: Vec<PatternFingerprint> = Vec::new();
    let mut i: usize = 0;
    while i < occ.len()
        invariant
            0 <= i <= occ.len(),
            forall|a: int, b: int| 0 <= a < b < fps@.len() ==> bytes_lt((#[trigger] fps@[a])@, (#[trigger] fps@[b])@),
            forall|a: int, b: int| 0 <= a < b < fps@.len() ==> (#[trigger] fps@[a])@ != (#[trigger] fps@[b])@,
            forall|k: int|
                0 <= k < i && (#[trigger] occ@[k]).category@ == cat@ ==> has_fingerprint(fps@, occ@[k].fingerprint@),
            forall|j: int| 0 <= j < fps@.len() ==> occurs_pair(occ@, i as int, cat@, (#[trigger] fps@[j])@),
        decreases occ.len() - i,
    {
        let o = &occ[i];
        let ghost before = fps@;
        if o.category == *cat && !find_fingerprint(&fps, &o.fingerprint) {
            let mut p: usize = 0;
            while p < fps.len() && fingerprint_less(&fps[p], &o.fingerprint)
                invariant
                    0 <= p <= fps.len(),
                    fps@ == before,
                    forall|j: int| 0 <= j < p ==> bytes_lt((#[trigger] before[j])@, o.fingerprint@),
                decreases fps.len() - p,
            {
                p = p + 1;
            }
            let ghost x = o.fingerprint@;
            proof {
                assert forall|j: int| p <= j < before.len() implies bytes_lt(x, (#[trigger] before[j])@) by {
                    lemma_bytes_lt_order(before[p as int]@, x, x);
                    lemma_bytes_lt_order(x, before[p as int]@, before[j]@);
                    assert(before[p as int]@ != x);
                }
            }
            fps.insert(p, o.fingerprint);
            assert forall|a: int, b: int| 0 <= a < b < fps@.len() implies bytes_lt((#[trigger] fps@[a])@, (#[trigger] fps@[b])@) by {
                assert(fps@[a]@ == (if a < p { before[a]@ } else if a == p { x } else { before[a - 1]@ }));
                assert(fps@[b]@ == (if b < p { before[b]@ } else if b == p { x } else { before[b - 1]@ }));
                if a < p && b > p {
                    lemma_bytes_lt_order(before[a]@, x, before[b - 1]@);
                }
            }
            assert forall|a: int, b: int| 0 <= a < b < fps@.len() implies (#[trigger] fps@[a])@ != (#[trigger] fps@[b])@ by {
                assert(fps@[a]@ == (if a < p { before[a]@ } else if a == p { x } else { before[a - 1]@ }));
                assert(fps@[b]@ == (if b < p { before[b]@ } else if b == p { x } else { before[b - 1]@ }));
            }
            assert forall|k: int|
                0 <= k < i + 1 && (#[trigger] occ@[k]).category@ == cat@ implies has_fingerprint(fps@, occ@[k].fingerprint@) by {
                if k < i {
                    let j = choose|j: int| 0 <= j < before.len() && (#[trigger] before[j])@ == occ@[k].fingerprint@;
                    if j < p {
                        assert(fps@[j] == before[j]);
                    } else {
                        assert(fps@[j + 1] == before[j]);
                    }
                } else {
                    assert(fps@[p as int]@ == occ@[k].fingerprint@);
                }
            }
            assert forall|j: int| 0 <= j < fps@.len() implies occurs_pair(occ@, i + 1, cat@, (#[trigger] fps@[j])@) by {
                if j == p {
                    assert(occ@[i as int].fingerprint@ == fps@[j]@);
                } else {
                    let jj = if j < p { j } else { j - 1 };
                    assert(fps@[j] == before[jj]);
                    assert(occurs_pair(occ@, i as int, cat@, before[jj]@));
                    let k = choose|k: int| 0 <= k < i && (#[trigger] occ@[k]).category@ == cat@ && occ@[k].fingerprint@ == before[jj]@;
                    assert(occ@[k].fingerprint@ == fps@[j]@);
                }
            }
        } else {
            assert forall|k: int|
                0 <= k < i + 1 && (#[trigger] occ@[k]).category@ == cat@ implies has_fingerprint(fps@, occ@[k].fingerprint@) by {}
            assert forall|j: int| 0 <= j < fps@.len() implies occurs_pair(occ@, i + 1, cat@, (#[trigger] fps@[j])@) by {
                assert(occurs_pair(occ@, i as int, cat@, fps@[j]@));
                let k = choose|k: int| 0 <= k < i && (#[trigger] occ@[k]).category@ == cat@ && occ@[k].fingerprint@ == fps@[j]@;
                assert(occ@[k].fingerprint@ == fps@[j]@);
            }
        }
        i = i + 1;
    }
    fps
}

fn copy_location(l: &PatternLocation) -> (c: PatternLocation)
    ensures
        c.file@ == l.file@,
        c.start_row == l.start_row,
        c.start_col == l.start_col,
{
    PatternLocation { file: l.file.clone(), start_row: l.start_row, start_col: l.start_col }
}

/// Counts the occurrences of `(cat, fp)` and gathers their locations.
fn tally(occ: &Vec<Occurrence>, cat: &String, fp: &PatternFingerprint) -> (s: PatternStats)
    requires
        occ.len() <= u32::MAX,
    ensures
        s.count == key_count(occ_keys(occ@), cat@, fp@),
        s.locations@.len() == s.count,
        location_views(s.locations@) == located(occ_keys(occ@), cat@, fp@),
{
    let ghost keys = occ_keys(occ@);
    let mut count: u32 = 0;
    let mut locations: Vec<PatternLocation> = Vec::new();
    let mut i: usize = 0;
    while i < occ.len()
        invariant
            0 <= i <= occ.len(),
            occ.len() <= u32::MAX,
            keys == occ_keys(occ@),
            count == key_count(keys.take(i as int), cat@, fp@),
            locations@.len() == count,
            location_views(locations@) == located(keys.take(i as int), cat@, fp@),
        decreases occ.len() - i,
    {
        proof {
            assert(keys.take(i + 1).drop_last() =~= keys.take(i as int));
            assert(keys.take(i + 1).last() == keys[i as int]);
            lemma_key_count_le(keys.take(i as int), cat@, fp@);
        }
        let o = &occ[i];
        if o.category == *cat && same_fingerprint(&o.fingerprint, fp) {
            count = count + 1;
            let ghost before = locations@;
            locations.push(copy_location(&o.location));
            assert(location_views(locations@) =~= location_views(before).push(keys[i as int].2));
        }
        i = i + 1;
    }
    assert(keys.take(occ.len() as int) =~= keys);
    PatternStats { count, locations }
}

spec fn category_before(cats: Seq<String>, n: int, c: Seq<char>) -> bool {
    exists|j: int| 0 <= j < n && (#[trigger] cats[j])@ == c
}

spec fn fingerprint_before(fps: Seq<PatternFingerprint>, n: int, f: Seq<u8>) -> bool {
    exists|j: int| 0 <= j < n && (#[trigger] fps[j])@ == f
}

spec fn row_has(row: Seq<(PatternFingerprint, PatternStats)>, f: Seq<u8>) -> bool {
    exists|x: int| 0 <= x < row.len() && (#[trigger] row[x]).0@ == f
}

/// Builds the pattern catalog of `records`.
///
/// Files whose path the `GlobSet` of the valid globs of `scope_exclude`
/// matches are skipped (none when `scope_exclude` is empty or globset
/// refuses to build the set). A hint's
/// category is the first entry of `kinds_by_category` that lists its node
/// kind; hints of no category are skipped. Each category counts the hints of
/// each fingerprint (`fingerprint_node_kind` of the node kind) with their
/// locations; fingerprints with fewer than `min_pattern_nodes` instances are
/// dropped, and categories left empty are dropped. Categories come in
/// ascending order of name, and fingerprints in ascending byte order.
pub fn build_catalog(
    records: &Vec<FeatureRecord>,
    kinds_by_category: &Vec<(String, Vec<String>)>,
    scope_exclude: &Vec<String>,
    min_pattern_nodes: u32,
) -> (c: PatternCatalog)
    requires
        total_hints(records@) <= u32::MAX,
        globs_fit(scope_exclude@),
    ensures
        catalog_of(c.entries@, catalog_keys(records@, kinds_by_category@, scope_exclude@), min_pattern_nodes),
{
    let min = min_pattern_nodes;
    let occ = collect_occurrences(records, kinds_by_category, scope_exclude);
    let ghost keys = occ_keys(occ@);
    proof {
        lemma_catalog_keys_len(records@, kinds_by_category@, scope_exclude@);
    }
    assert forall|i: int| 0 <= i < occ.len() implies #[trigger] keys[i] == (occ@[i].category@, occ@[i].fingerprint@, (occ@[i].location.file@, occ@[i].location.start_row, occ@[i].location.start_col)) by {}
    let cats = distinct_categories(&occ);
    let mut entries: Vec<(String, Vec<(PatternFingerprint, PatternStats)>)> = Vec::new();
    let mut ci: usize = 0;
    while ci < cats.len()
        invariant
            0 <= ci <= cats.len(),
            occ.len() <= u32::MAX,
            keys == occ_keys(occ@),
            keys.len() == occ.len(),
            forall|i: int| 0 <= i < occ.len() ==> #[trigger] keys[i] == (occ@[i].category@, occ@[i].fingerprint@, (occ@[i].location.file@, occ@[i].location.start_row, occ@[i].location.start_col)),
            forall|a: int, b: int| 0 <= a < b < cats@.len() ==> (#[trigger] cats@[a])@ != (#[trigger] cats@[b])@,
            forall|a: int, b: int| 0 <= a < b < cats@.len() ==> chars_lt((#[trigger] cats@[a])@, (#[trigger] cats@[b])@),
            forall|e: int| 0 <= e < entries@.len() ==> category_before(cats@, ci as int, (#[trigger] entries@[e]).0@),
            forall|e: int, f: int| 0 <= e < f < entries@.len() ==> (#[trigger] entries@[e]).0@ != (#[trigger] entries@[f]).0@,
            forall|e: int, f: int| 0 <= e < f < entries@.len() ==> chars_lt((#[trigger] entries@[e]).0@, (#[trigger] entries@[f]).0@),
            forall|e: int|
                0 <= e < entries@.len() ==> (#[trigger] entries@[e]).1@.len() > 0 && row_ok(entries@[e].1@, entries@[e].0@, keys, min),
            forall|i: int|
                0 <= i < keys.len() && category_before(cats@, ci as int, (#[trigger] keys[i]).0) && key_count(keys, keys[i].0, keys[i].1)
                    >= min ==> has_entry(entries@, keys[i].0, keys[i].1),
        decreases cats.len() - ci,
    {
        let c = &cats[ci];
        let fps = distinct_fingerprints(&occ, c);
        let mut row: Vec<(PatternFingerprint, PatternStats)> = Vec::new();
        let mut fi: usize = 0;
        while fi < fps.len()
            invariant
                0 <= fi <= fps.len(),
                occ.len() <= u32::MAX,
                keys == occ_keys(occ@),
                keys.len() == occ.len(),
                forall|i: int| 0 <= i < occ.len() ==> #[trigger] keys[i] == (occ@[i].category@, occ@[i].fingerprint@, (occ@[i].location.file@, occ@[i].location.start_row, occ@[i].location.start_col)),
                forall|a: int, b: int| 0 <= a < b < fps@.len() ==> (#[trigger] fps@[a])@ != (#[trigger] fps@[b])@,
                forall|a: int, b: int| 0 <= a < b < fps@.len() ==> bytes_lt((#[trigger] fps@[a])@, (#[trigger] fps@[b])@),
                forall|j: int| 0 <= j < fps@.len() ==> occurs_pair(occ@, occ@.len() as int, c@, (#[trigger] fps@[j])@),
                forall|x: int| 0 <= x < row@.len() ==> fingerprint_before(fps@, fi as int, (#[trigger] row@[x]).0@),
                row_ok(row@, c@, keys, min),
                forall|i: int|
                    0 <= i < keys.len() && (#[trigger] keys[i]).0 == c@ && fingerprint_before(fps@, fi as int, keys[i].1)
                        && key_count(keys, keys[i].0, keys[i].1) >= min ==> row_has(row@, keys[i].1),
            decreases fps.len() - fi,
        {
            let stats = tally(&occ, c, &fps[fi]);
            proof {
                assert(occurs_pair(occ@, occ@.len() as int, c@, fps@[fi as int]@));
                let k = choose|k: int| 0 <= k < occ@.len() && (#[trigger] occ@[k]).category@ == c@ && occ@[k].fingerprint@ == fps@[fi as int]@;
                assert(keys[k].0 == c@ && keys[k].1 == fps@[fi as int]@);
                lemma_key_count_at(keys, k);
            }
            let ghost before = row@;
            if stats.count >= min {
                row.push((fps[fi], stats));
                assert forall|x: int| 0 <= x < row@.len() implies fingerprint_before(fps@, fi + 1, (#[trigger] row@[x]).0@) by {
                    if x < before.len() {
                        assert(row@[x] == before[x]);
                        assert(fingerprint_before(fps@, fi as int, before[x].0@));
                        let j = choose|j: int| 0 <= j < fi && (#[trigger] fps@[j])@ == before[x].0@;
                        assert(fps@[j]@ == row@[x].0@);
                    } else {
                        assert(fps@[fi as int]@ == row@[x].0@);
                    }
                }
                assert forall|x: int, y: int| 0 <= x < y < row@.len() implies (#[trigger] row@[x]).0@ != (#[trigger] row@[y]).0@ by {
                    assert(row@[x] == before[x]);
                    if y < before.len() {
                        assert(row@[y] == before[y]);
                    } else {
                        assert(fingerprint_before(fps@, fi as int, before[x].0@));
                        let j = choose|j: int| 0 <= j < fi && (#[trigger] fps@[j])@ == before[x].0@;
                        assert(fps@[j]@ != fps@[fi as int]@);
                    }
                }
                assert forall|x: int, y: int| 0 <= x < y < row@.len() implies bytes_lt((#[trigger] row@[x]).0@, (#[trigger] row@[y]).0@) by {
                    assert(row@[x] == before[x]);
                    if y < before.len() {
                        assert(row@[y] == before[y]);
                    } else {
                        assert(fingerprint_before(fps@, fi as int, before[x].0@));
                        let j = choose|j: int| 0 <= j < fi && (#[trigger] fps@[j])@ == before[x].0@;
                        assert(bytes_lt(fps@[j]@, fps@[fi as int]@));
                    }
                }
                assert forall|x: int| 0 <= x < row@.len() implies {
                    let s = (#[trigger] row@[x]).1;
                    &&& s.count == key_count(keys, c@, row@[x].0@)
                    &&& s.locations@.len() == s.count
                    &&& s.count >= min
                    &&& s.count > 0
                } by {
                    if x < before.len() {
                        assert(row@[x] == before[x]);
                    }
                }
                assert forall|i: int|
                    0 <= i < keys.len() && (#[trigger] keys[i]).0 == c@ && fingerprint_before(fps@, fi + 1, keys[i].1)
                        && key_count(keys, keys[i].0, keys[i].1) >= min implies row_has(row@, keys[i].1) by {
                    let j = choose|j: int| 0 <= j < fi + 1 && (#[trigger] fps@[j])@ == keys[i].1;
                    if j < fi {
                        assert(fingerprint_before(fps@, fi as int, keys[i].1));
                        assert(row_has(before, keys[i].1));
                        let x = choose|x: int| 0 <= x < before.len() && (#[trigger] before[x]).0@ == keys[i].1;
                        assert(row@[x] == before[x]);
                    } else {
                        assert(row@[before.len() as int].0@ == keys[i].1);
                    }
                }
            } else {
                assert forall|x: int| 0 <= x < row@.len() implies fingerprint_before(fps@, fi + 1, (#[trigger] row@[x]).0@) by {
                    assert(fingerprint_before(fps@, fi as int, row@[x].0@));
                    let j = choose|j: int| 0 <= j < fi && (#[trigger] fps@[j])@ == row@[x].0@;
                    assert(fps@[j]@ == row@[x].0@);
                }
                assert forall|i: int|
                    0 <= i < keys.len() && (#[trigger] keys[i]).0 == c@ && fingerprint_before(fps@, fi + 1, keys[i].1)
                        && key_count(keys, keys[i].0, keys[i].1) >= min implies row_has(row@, keys[i].1) by {
                    let j = choose|j: int| 0 <= j < fi + 1 && (#[trigger] fps@[j])@ == keys[i].1;
                    if j < fi {
                        assert(fingerprint_before(fps@, fi as int, keys[i].1));
                    } else {
                        assert(keys[i].0 == c@ && keys[i].1 == fps@[fi as int]@);
                    }
                }
            }
            fi = fi + 1;
        }
        let ghost old_entries = entries@;
        if row.len() > 0 {
            entries.push((c.clone(), row));
        }
        proof {
            let ents = entries@;
            assert forall|e: int| 0 <= e < ents.len() implies category_before(cats@, ci + 1, (#[trigger] ents[e]).0@) by {
                if e < old_entries.len() {
                    assert(ents[e] == old_entries[e]);
                    assert(category_before(cats@, ci as int, old_entries[e].0@));
                    let j = choose|j: int| 0 <= j < ci && (#[trigger] cats@[j])@ == old_entries[e].0@;
                    assert(cats@[j]@ == ents[e].0@);
                } else {
                    assert(cats@[ci as int]@ == ents[e].0@);
                }
            }
            assert forall|e: int, f: int| 0 <= e < f < ents.len() implies (#[trigger] ents[e]).0@ != (#[trigger] ents[f]).0@ by {
                assert(ents[e] == old_entries[e]);
                if f < old_entries.len() {
                    assert(ents[f] == old_entries[f]);
                } else {
                    assert(category_before(cats@, ci as int, old_entries[e].0@));
                    let j = choose|j: int| 0 <= j < ci && (#[trigger] cats@[j])@ == old_entries[e].0@;
                    assert(cats@[j]@ != cats@[ci as int]@);
                }
            }
            assert forall|e: int, f: int| 0 <= e < f < ents.len() implies chars_lt((#[trigger] ents[e]).0@, (#[trigger] ents[f]).0@) by {
                assert(ents[e] == old_entries[e]);
                if f < old_entries.len() {
                    assert(ents[f] == old_entries[f]);
                } else {
                    assert(category_before(cats@, ci as int, old_entries[e].0@));
                    let j = choose|j: int| 0 <= j < ci && (#[trigger] cats@[j])@ == old_entries[e].0@;
                    assert(chars_lt(cats@[j]@, cats@[ci as int]@));
                }
            }
            assert forall|e: int|
                0 <= e < ents.len() implies (#[trigger] ents[e]).1@.len() > 0 && row_ok(ents[e].1@, ents[e].0@, keys, min) by {
                if e < old_entries.len() {
                    assert(ents[e] == old_entries[e]);
                }
            }
            assert forall|i: int|
                0 <= i < keys.len() && category_before(cats@, ci + 1, (#[trigger] keys[i]).0) && key_count(keys, keys[i].0, keys[i].1)
                    >= min implies has_entry(ents, keys[i].0, keys[i].1) by {
                let j = choose|j: int| 0 <= j < ci + 1 && (#[trigger] cats@[j])@ == keys[i].0;
                if j < ci {
                    assert(category_before(cats@, ci as int, keys[i].0));
                    assert(has_entry(old_entries, keys[i].0, keys[i].1));
                    let (e, x) = choose|e: int, x: int|
                        0 <= e < old_entries.len() && 0 <= x < old_entries[e].1@.len() && (#[trigger] old_entries[e]).0@ == keys[i].0 && (
                        #[trigger] old_entries[e].1@[x]).0@ == keys[i].1;
                    assert(ents[e] == old_entries[e]);
                } else {
                    assert(keys[i].0 == occ@[i].category@ && keys[i].1 == occ@[i].fingerprint@);
                    assert(occ@[i].category@ == c@);
                    assert(has_fingerprint(fps@, occ@[i].fingerprint@));
                    let jj = choose|jj: int| 0 <= jj < fps@.len() && (#[trigger] fps@[jj])@ == occ@[i].fingerprint@;
                    assert(fingerprint_before(fps@, fps@.len() as int, keys[i].1));
                    assert(row_has(row@, keys[i].1));
                    let x = choose|x: int| 0 <= x < row@.len() && (#[trigger] row@[x]).0@ == keys[i].1;
                    let e = old_entries.len() as int;
                    assert(ents[e].1@[x] == row@[x]);
                }
            }
        }
        ci = ci + 1;
    }
    proof {
        assert forall|i: int| 0 <= i < keys.len() implies category_before(cats@, cats@.len() as int, (#[trigger] keys[i]).0) by {
            assert(has_category(cats@, occ@[i].category@));
        }
    }
    PatternCatalog { entries }
}

} // verus!
