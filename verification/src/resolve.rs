//! Building the dependency graph of parsed source files: each import is
//! resolved to the file it names, by relative path or by module stem.
use vstd::prelude::*;
use crate::feature_record::FeatureRecord;
use crate::graph::{build_dependency_graph_from_edges, kept_edges, DependencyGraph};
use crate::path::{body_components, char_components, chars_equal, components, components_equal, segments, views};
use crate::text::{chars_of, find_chars, find_from, starts_with};

verus! {

/// Index of the last node whose path has the components `comps`, or -1.
pub open spec fn node_with(nodes: Seq<Seq<char>>, comps: Seq<Seq<char>>) -> int
    decreases nodes.len(),
{
    if nodes.len() == 0 {
        -1
    } else if components(nodes.last()) == comps {
        nodes.len() - 1
    } else {
        node_with(nodes.drop_last(), comps)
    }
}

/// `s` without every leading copy of `pat` (`str::trim_start_matches`).
pub open spec fn trim_leading(s: Seq<char>, pat: Seq<char>) -> Seq<char>
    decreases s.len(),
{
    if pat.len() > 0 && starts_with(s, pat) {
        trim_leading(s.skip(pat.len() as int), pat)
    } else {
        s
    }
}

/// The components of the parent directory of a path (`Path::parent`): none
/// for an empty path or a root.
pub open spec fn parent_components(p: Seq<char>) -> Option<Seq<Seq<char>>> {
    let c = components(p);
    if c.len() == 0 || c.last() == seq!['/'] {
        None
    } else {
        Some(c.drop_last())
    }
}

/// The components of path `b` joined onto a directory with components
/// `dir` (`Path::join`): an absolute `b`, or an empty directory, gives `b`.
pub open spec fn join_components(dir: Seq<Seq<char>>, b: Seq<char>) -> Seq<Seq<char>> {
    if (b.len() > 0 && b[0] == '/') || dir.len() == 0 {
        components(b)
    } else {
        dir + body_components(segments(b))
    }
}

/// File extensions tried, in order, for a relative import.
pub open spec fn source_extensions() -> Seq<Seq<char>> {
    seq!["rs"@, "py"@, "ts"@, "tsx"@, "js"@, "go"@, "java"@]
}

/// Directory index files tried, in order, for a relative import.
pub open spec fn index_files() -> Seq<Seq<char>> {
    seq!["mod.rs"@, "index.ts"@, "index.js"@, "__init__.py"@]
}

/// The candidate paths for relative import `rel` from directory `dir`:
/// `rel` with each extension, then `rel` as a directory with each index file.
pub open spec fn relative_candidates(dir: Seq<Seq<char>>, rel: Seq<char>) -> Seq<Seq<Seq<char>>> {
    source_extensions().map_values(|e: Seq<char>| join_components(dir, rel + seq!['.'] + e))
        + index_files().map_values(|f: Seq<char>| join_components(dir, rel).push(f))
}

/// The node of the first candidate that names one, in order.
pub open spec fn first_found(nodes: Seq<Seq<char>>, cands: Seq<Seq<Seq<char>>>) -> Option<int>
    decreases cands.len(),
{
    if cands.len() == 0 {
        None
    } else if node_with(nodes, cands[0]) >= 0 {
        Some(node_with(nodes, cands[0]))
    } else {
        first_found(nodes, cands.drop_first())
    }
}

/// The node that relative import `import` of file `from` names.
pub open spec fn relative_target(import: Seq<char>, from: Seq<char>, nodes: Seq<Seq<char>>) -> Option<int> {
    match parent_components(from) {
        None => None,
        Some(dir) => {
            let rel = trim_leading(trim_leading(import, "./"@), "../"@);
            first_found(nodes, relative_candidates(dir, rel))
        },
    }
}

/// Index of the last `c` in `s` before `i`, or -1.
pub open spec fn last_index_of(s: Seq<char>, c: char, i: int) -> int
    decreases i,
{
    if i <= 0 {
        -1
    } else if s[i - 1] == c {
        i - 1
    } else {
        last_index_of(s, c, i - 1)
    }
}

/// The stem of a file name (`Path::file_stem`): the part before the last
/// `.`, or the whole name when it has no `.` after its first character.
pub open spec fn stem_of_name(name: Seq<char>) -> Seq<char> {
    let k = last_index_of(name, '.', name.len() as int);
    if k <= 0 {
        name
    } else {
        name.take(k)
    }
}

/// The file stem of a path: that of its last component when it is a name.
pub open spec fn file_stem(p: Seq<char>) -> Option<Seq<char>> {
    let c = components(p);
    if c.len() == 0 || c.last() == seq!['/'] || c.last() == seq!['.'] || c.last() == seq!['.', '.'] {
        None
    } else {
        Some(stem_of_name(c.last()))
    }
}

/// A character with ASCII upper case folded to lower case, as a code point.
pub open spec fn lower_code(c: char) -> u32 {
    if 'A' <= c <= 'Z' {
        (c as u32 + 32) as u32
    } else {
        c as u32
    }
}

/// A string with ASCII upper case folded to lower case, as code points
/// (`str::to_ascii_lowercase`).
pub open spec fn ascii_lower(s: Seq<char>) -> Seq<u32> {
    s.map_values(|c: char| lower_code(c))
}

/// Node `i` is the last node with its path, the one a path lookup finds.
pub open spec fn is_last_of_path(nodes: Seq<Seq<char>>, i: int) -> bool {
    node_with(nodes, components(nodes[i])) == i
}

/// The nodes below `k`, one per distinct path, whose file stem matches
/// `key` ignoring ASCII case, in index order.
pub open spec fn stem_matches(nodes: Seq<Seq<char>>, key: Seq<u32>, k: int) -> Seq<int>
    decreases k,
{
    if k <= 0 {
        Seq::empty()
    } else {
        let r = stem_matches(nodes, key, k - 1);
        let i = k - 1;
        if is_last_of_path(nodes, i) && file_stem(nodes[i]) is Some && ascii_lower(file_stem(nodes[i])->0)
            == key {
            r.push(i)
        } else {
            r
        }
    }
}

/// The node a module stem names: the only file with that stem, if exactly
/// one has it.
pub open spec fn stem_target(nodes: Seq<Seq<char>>, stem: Seq<char>) -> Option<int> {
    let m = stem_matches(nodes, ascii_lower(stem), nodes.len() as int);
    if m.len() == 1 {
        Some(m[0])
    } else {
        None
    }
}

/// The module path after a `crate::`, `self::` or `super::` prefix.
pub open spec fn local_path(import: Seq<char>) -> Option<Seq<char>> {
    if starts_with(import, "crate::"@) {
        Some(import.skip("crate::"@.len() as int))
    } else if starts_with(import, "self::"@) {
        Some(import.skip("self::"@.len() as int))
    } else if starts_with(import, "super::"@) {
        Some(import.skip("super::"@.len() as int))
    } else {
        None
    }
}

/// The first `::`-separated segment of a module path.
pub open spec fn first_segment(s: Seq<char>) -> Seq<char> {
    let p = find_from(s, "::"@, 0);
    if p < 0 {
        s
    } else {
        s.take(p)
    }
}

/// The node that import `import` of file `from` names, if any.
pub open spec fn import_target(import: Seq<char>, from: Seq<char>, nodes: Seq<Seq<char>>) -> Option<int> {
    if starts_with(import, "./"@) || starts_with(import, "../"@) {
        relative_target(import, from, nodes)
    } else {
        match local_path(import) {
            Some(local) => stem_target(nodes, first_segment(local)),
            None => None,
        }
    }
}

/// The edges that the imports `imps` of file `path`, node `from`, give:
/// resolved targets other than the file itself, in order.
pub open spec fn import_pairs(imps: Seq<String>, path: Seq<char>, from: int, nodes: Seq<Seq<char>>) -> Seq<(usize, usize)>
    decreases imps.len(),
{
    if imps.len() == 0 {
        Seq::empty()
    } else {
        let r = import_pairs(imps.drop_last(), path, from, nodes);
        match import_target(imps.last()@, path, nodes) {
            Some(t) => if t != from {
                r.push((from as usize, t as usize))
            } else {
                r
            },
            None => r,
        }
    }
}

/// The edges that all records give, record by record.
pub open spec fn record_pairs(recs: Seq<FeatureRecord>, nodes: Seq<Seq<char>>) -> Seq<(usize, usize)>
    decreases recs.len(),
{
    if recs.len() == 0 {
        Seq::empty()
    } else {
        let rec = recs.last();
        record_pairs(recs.drop_last(), nodes) + import_pairs(
            rec.imports@,
            rec.path@,
            node_with(nodes, components(rec.path@)),
            nodes,
        )
    }
}

/// The paths of the records, in order.
pub open spec fn record_paths(recs: Seq<FeatureRecord>) -> Seq<Seq<char>> {
    recs.map_values(|r: FeatureRecord| r.path@)
}

/// The total number of imports of the records.
pub open spec fn total_imports(recs: Seq<FeatureRecord>) -> int
    decreases recs.len(),
{
    if recs.len() == 0 {
        0
    } else {
        total_imports(recs.drop_last()) + recs.last().imports@.len()
    }
}

/// The views of a list of component lists.
pub open spec fn views2(v: Seq<Vec<Vec<char>>>) -> Seq<Seq<Seq<char>>> {
    v.map_values(|c: Vec<Vec<char>>| views(c@))
}

fn copy_chars(v: &Vec<char>, from: usize, to: usize) -> (r: Vec<char>)
    requires
        from <= to <= v.len(),
    ensures
        r@ == v@.subrange(from as int, to as int),
{
    let mut r: Vec<char> = Vec::new();
    let mut i = from;
    while i < to
        invariant
            from <= i <= to <= v.len(),
            r@ == v@.subrange(from as int, i as int),
        decreases to - i,
    {
        r.push(v[i]);
        assert(r@ =~= v@.subrange(from as int, i + 1));
        i = i + 1;
    }
    r
}

fn copy_components(v: &Vec<Vec<char>>, to: usize) -> (r: Vec<Vec<char>>)
    requires
        to <= v.len(),
    ensures
        views(r@) == views(v@).take(to as int),
{
    let mut r: Vec<Vec<char>> = Vec::new();
    let mut i: usize = 0;
    while i < to
        invariant
            0 <= i <= to <= v.len(),
            views(r@) == views(v@).take(i as int),
        decreases to - i,
    {
        let ghost before = views(r@);
        let c = copy_chars(&v[i], 0, v[i].len());
        assert(c@ =~= v@[i as int]@);
        r.push(c);
        assert(views(r@) =~= before.push(v@[i as int]@));
        assert(views(v@).take(i + 1) =~= views(v@).take(i as int).push(v@[i as int]@));
        i = i + 1;
    }
    r
}

fn is_single(c: &Vec<char>, x: char) -> (r: bool)
    ensures
        r == (c@ == seq![x]),
{
    if c.len() == 1 && c[0] == x {
        assert(c@ =~= seq![x]);
        true
    } else {
        proof {
            if c@ == seq![x] {
                assert(c@.len() == 1);
            }
        }
        false
    }
}

fn is_dot_dot(c: &Vec<char>) -> (r: bool)
    ensures
        r == (c@ == seq!['.', '.']),
{
    if c.len() == 2 && c[0] == '.' && c[1] == '.' {
        assert(c@ =~= seq!['.', '.']);
        true
    } else {
        proof {
            if c@ == seq!['.', '.'] {
                assert(c@.len() == 2);
            }
        }
        false
    }
}

fn trim_leading_from(c: &Vec<char>, from: usize, pat: &Vec<char>) -> (i: usize)
    requires
        from <= c.len(),
    ensures
        from <= i <= c.len(),
        c@.subrange(i as int, c.len() as int) == trim_leading(c@.subrange(from as int, c.len() as int), pat@),
{
    let n = c.len();
    let mut i = from;
    if pat.len() == 0 {
        return i;
    }
    while crate::text::range_starts_with(c, i, n, pat)
        invariant
            from <= i <= n,
            n == c.len(),
            pat.len() > 0,
            trim_leading(c@.subrange(from as int, n as int), pat@) == trim_leading(c@.subrange(i as int, n as int), pat@),
        decreases n - i,
    {
        assert(c@.subrange(i as int, n as int).skip(pat.len() as int) =~= c@.subrange(i + pat.len(), n as int));
        i = i + pat.len();
    }
    i
}

fn parent_of(path: &Vec<char>) -> (r: Option<Vec<Vec<char>>>)
    ensures
        match r {
            Some(d) => parent_components(path@) == Some(views(d@)),
            None => parent_components(path@) is None,
        },
{
    let comps = char_components(path);
    let n = comps.len();
    if n == 0 || is_single(&comps[n - 1], '/') {
        None
    } else {
        let d = copy_components(&comps, n - 1);
        assert(views(comps@).take(n - 1) =~= views(comps@).drop_last());
        Some(d)
    }
}

proof fn lemma_body_has_no_dot(segs: Seq<Seq<char>>)
    ensures
        forall|k: int| 0 <= k < body_components(segs).len() ==> #[trigger] body_components(segs)[k] != seq!['.'],
    decreases segs.len(),
{
    if segs.len() > 0 {
        lemma_body_has_no_dot(segs.drop_last());
        let rest = body_components(segs.drop_last());
        let seg = segs.last();
        if !(seg.len() == 0 || seg == seq!['.']) {
            assert forall|k: int| 0 <= k < body_components(segs).len() implies #[trigger] body_components(segs)[k] != seq!['.'] by {
                if k < rest.len() {
                    assert(body_components(segs)[k] == rest[k]);
                }
            }
        }
    }
}

proof fn lemma_segments_nonempty(s: Seq<char>)
    ensures
        segments(s).len() >= 1,
    decreases s.len(),
{
    if s.len() > 0 {
        lemma_segments_nonempty(s.drop_last());
    }
}

fn join_to(dir: &Vec<Vec<char>>, b: &Vec<char>) -> (r: Vec<Vec<char>>)
    ensures
        views(r@) == join_components(views(dir@), b@),
{
    let comps = char_components(b);
    if (b.len() > 0 && b[0] == '/') || dir.len() == 0 {
        return comps;
    }
    proof {
        lemma_body_has_no_dot(segments(b@));
        lemma_segments_nonempty(b@);
    }
    let mut r = copy_components(dir, dir.len());
    assert(views(dir@).take(dir.len() as int) =~= views(dir@));
    let start: usize = if comps.len() > 0 && is_single(&comps[0], '.') {
        1
    } else {
        0
    };
    let ghost body = body_components(segments(b@));
    proof {
        if start == 1 {
            if !(segments(b@)[0] == seq!['.']) {
                assert(views(comps@) == body);
                assert(body[0] == seq!['.']);
            }
            assert(views(comps@).skip(1) =~= body);
        } else {
            if segments(b@)[0] == seq!['.'] {
                assert(views(comps@)[0] == seq!['.']);
            }
            assert(views(comps@).skip(0) =~= body);
        }
    }
    let ghost base = views(r@);
    let mut k = start;
    while k < comps.len()
        invariant
            start <= k <= comps.len(),
            views(r@) == base + views(comps@).subrange(start as int, k as int),
        decreases comps.len() - k,
    {
        let ghost before = views(r@);
        let c = copy_chars(&comps[k], 0, comps[k].len());
        assert(c@ =~= comps@[k as int]@);
        r.push(c);
        assert(views(r@) =~= before.push(comps@[k as int]@));
        assert(views(comps@).subrange(start as int, k + 1) =~= views(comps@).subrange(start as int, k as int).push(comps@[k as int]@));
        assert(views(r@) =~= base + views(comps@).subrange(start as int, k + 1));
        k = k + 1;
    }
    assert(views(comps@).subrange(start as int, comps.len() as int) =~= views(comps@).skip(start as int));
    r
}

fn find_node(node_comps: &Vec<Vec<Vec<char>>>, cand: &Vec<Vec<char>>, Ghost(nodes): Ghost<Seq<Seq<char>>>) -> (r: Option<usize>)
    requires
        node_comps.len() == nodes.len(),
        forall|i: int| 0 <= i < nodes.len() ==> views(#[trigger] node_comps@[i]@) == components(nodes[i]),
    ensures
        match r {
            Some(i) => i == node_with(nodes, views(cand@)) && i < nodes.len(),
            None => node_with(nodes, views(cand@)) == -1,
        },
{
    let mut k = node_comps.len();
    assert(nodes.take(k as int) =~= nodes);
    while k > 0
        invariant
            0 <= k <= nodes.len(),
            node_comps.len() == nodes.len(),
            forall|i: int| 0 <= i < nodes.len() ==> views(#[trigger] node_comps@[i]@) == components(nodes[i]),
            node_with(nodes, views(cand@)) == node_with(nodes.take(k as int), views(cand@)),
        decreases k,
    {
        assert(nodes.take(k as int).drop_last() =~= nodes.take(k - 1));
        assert(nodes.take(k as int).last() == nodes[k - 1]);
        if components_equal(&node_comps[k - 1], cand) {
            return Some(k - 1);
        }
        k = k - 1;
    }
    None
}

proof fn lemma_node_with_bounds(nodes: Seq<Seq<char>>, comps: Seq<Seq<char>>)
    ensures
        -1 <= node_with(nodes, comps) < nodes.len(),
    decreases nodes.len(),
{
    if nodes.len() > 0 {
        lemma_node_with_bounds(nodes.drop_last(), comps);
    }
}

fn first_found_in(node_comps: &Vec<Vec<Vec<char>>>, cands: &Vec<Vec<Vec<char>>>, Ghost(nodes): Ghost<Seq<Seq<char>>>) -> (r: Option<usize>)
    requires
        node_comps.len() == nodes.len(),
        forall|i: int| 0 <= i < nodes.len() ==> views(#[trigger] node_comps@[i]@) == components(nodes[i]),
    ensures
        match r {
            Some(i) => first_found(nodes, views2(cands@)) == Some(i as int),
            None => first_found(nodes, views2(cands@)) is None,
        },
{
    let ghost cs = views2(cands@);
    let mut k: usize = 0;
    assert(cs.skip(0) =~= cs);
    while k < cands.len()
        invariant
            0 <= k <= cands.len(),
            cs == views2(cands@),
            node_comps.len() == nodes.len(),
            forall|i: int| 0 <= i < nodes.len() ==> views(#[trigger] node_comps@[i]@) == components(nodes[i]),
            first_found(nodes, cs) == first_found(nodes, cs.skip(k as int)),
        decreases cands.len() - k,
    {
        assert(cs.skip(k as int)[0] == views(cands@[k as int]@));
        assert(cs.skip(k as int).drop_first() =~= cs.skip(k + 1));
        match find_node(node_comps, &cands[k], Ghost(nodes)) {
            Some(i) => {
                return Some(i);
            },
            None => {},
        }
        k = k + 1;
    }
    None
}

/// The character tables that import resolution uses.
struct ResolveTables {
    dot_slash: Vec<char>,
    dot_dot_slash: Vec<char>,
    crate_prefix: Vec<char>,
    self_prefix: Vec<char>,
    super_prefix: Vec<char>,
    path_sep: Vec<char>,
    extensions: Vec<Vec<char>>,
    index_names: Vec<Vec<char>>,
}

impl ResolveTables {
    /// The tables hold the strings import resolution is defined with.
    spec fn ready(&self) -> bool {
        &&& self.dot_slash@ == "./"@
        &&& self.dot_dot_slash@ == "../"@
        &&& self.crate_prefix@ == "crate::"@
        &&& self.self_prefix@ == "self::"@
        &&& self.super_prefix@ == "super::"@
        &&& self.path_sep@ == "::"@
        &&& views(self.extensions@) == source_extensions()
        &&& views(self.index_names@) == index_files()
    }

    /// Builds the tables.
    fn new() -> (t: Self)
        ensures
            t.ready(),
    {
        let mut extensions: Vec<Vec<char>> = Vec::new();
        extensions.push(chars_of("rs"));
        extensions.push(chars_of("py"));
        extensions.push(chars_of("ts"));
        extensions.push(chars_of("tsx"));
        extensions.push(chars_of("js"));
        extensions.push(chars_of("go"));
        extensions.push(chars_of("java"));
        let mut index_names: Vec<Vec<char>> = Vec::new();
        index_names.push(chars_of("mod.rs"));
        index_names.push(chars_of("index.ts"));
        index_names.push(chars_of("index.js"));
        index_names.push(chars_of("__init__.py"));
        let t = ResolveTables {
            dot_slash: chars_of("./"),
            dot_dot_slash: chars_of("../"),
            crate_prefix: chars_of("crate::"),
            self_prefix: chars_of("self::"),
            super_prefix: chars_of("super::"),
            path_sep: chars_of("::"),
            extensions,
            index_names,
        };
        assert(views(t.extensions@) =~= source_extensions());
        assert(views(t.index_names@) =~= index_files());
        t
    }
}

fn relative_cands(dir: &Vec<Vec<char>>, rel: &Vec<char>, t: &ResolveTables) -> (r: Vec<Vec<Vec<char>>>)
    requires
        t.ready(),
    ensures
        views2(r@) == relative_candidates(views(dir@), rel@),
{
    let ghost d = views(dir@);
    let ghost exts = source_extensions();
    let ghost idx = index_files();
    let mut r: Vec<Vec<Vec<char>>> = Vec::new();
    let mut k: usize = 0;
    while k < t.extensions.len()
        invariant
            0 <= k <= t.extensions.len(),
            views(t.extensions@) == exts,
            d == views(dir@),
            views2(r@) == exts.take(k as int).map_values(|e: Seq<char>| join_components(d, rel@ + seq!['.'] + e)),
        decreases t.extensions.len() - k,
    {
        let mut b = copy_chars(rel, 0, rel.len());
        b.push('.');
        let ext = &t.extensions[k];
        let mut x: usize = 0;
        let ghost base = b@;
        while x < ext.len()
            invariant
                0 <= x <= ext.len(),
                b@ == base + ext@.take(x as int),
            decreases ext.len() - x,
        {
            b.push(ext[x]);
            assert(b@ =~= base + ext@.take(x + 1));
            x = x + 1;
        }
        assert(ext@.take(ext.len() as int) =~= ext@);
        assert(rel@.subrange(0, rel.len() as int) =~= rel@);
        assert(b@ =~= rel@ + seq!['.'] + exts[k as int]);
        let c = join_to(dir, &b);
        let ghost before = views2(r@);
        r.push(c);
        assert(views2(r@) =~= before.push(views(c@)));
        assert(exts.take(k + 1).map_values(|e: Seq<char>| join_components(d, rel@ + seq!['.'] + e)) =~= exts.take(k as int).map_values(|e: Seq<char>| join_components(d, rel@ + seq!['.'] + e)).push(join_components(d, rel@ + seq!['.'] + exts[k as int])));
        k = k + 1;
    }
    assert(exts.take(exts.len() as int) =~= exts);
    let ghost first = views2(r@);
    let base = join_to(dir, rel);
    let mut k: usize = 0;
    while k < t.index_names.len()
        invariant
            0 <= k <= t.index_names.len(),
            views(t.index_names@) == idx,
            d == views(dir@),
            views(base@) == join_components(d, rel@),
            views2(r@) == first + idx.take(k as int).map_values(|f: Seq<char>| join_components(d, rel@).push(f)),
        decreases t.index_names.len() - k,
    {
        let mut c = copy_components(&base, base.len());
        assert(views(base@).take(base.len() as int) =~= views(base@));
        let f = copy_chars(&t.index_names[k], 0, t.index_names[k].len());
        assert(f@ =~= idx[k as int]);
        let ghost cbefore = views(c@);
        c.push(f);
        assert(views(c@) =~= cbefore.push(idx[k as int]));
        let ghost before = views2(r@);
        r.push(c);
        assert(views2(r@) =~= before.push(views(c@)));
        assert(idx.take(k + 1).map_values(|f: Seq<char>| join_components(d, rel@).push(f)) =~= idx.take(k as int).map_values(|f: Seq<char>| join_components(d, rel@).push(f)).push(join_components(d, rel@).push(idx[k as int])));
        k = k + 1;
    }
    assert(idx.take(idx.len() as int) =~= idx);
    r
}

fn resolve_relative(imp: &Vec<char>, from: &Vec<char>, t: &ResolveTables, node_comps: &Vec<Vec<Vec<char>>>, Ghost(nodes): Ghost<Seq<Seq<char>>>) -> (r: Option<usize>)
    requires
        t.ready(),
        node_comps.len() == nodes.len(),
        forall|i: int| 0 <= i < nodes.len() ==> views(#[trigger] node_comps@[i]@) == components(nodes[i]),
    ensures
        match r {
            Some(i) => relative_target(imp@, from@, nodes) == Some(i as int),
            None => relative_target(imp@, from@, nodes) is None,
        },
{
    match parent_of(from) {
        None => None,
        Some(dir) => {
            let a = trim_leading_from(imp, 0, &t.dot_slash);
            let b = trim_leading_from(imp, a, &t.dot_dot_slash);
            assert(imp@.subrange(0, imp.len() as int) =~= imp@);
            let rel = copy_chars(imp, b, imp.len());
            let cands = relative_cands(&dir, &rel, t);
            first_found_in(node_comps, &cands, Ghost(nodes))
        },
    }
}

fn lower_of(c: char) -> (r: u32)
    ensures
        r == lower_code(c),
{
    if 'A' <= c && c <= 'Z' {
        (c as u32) + 32
    } else {
        c as u32
    }
}

fn lower_range(c: &Vec<char>, from: usize, to: usize) -> (r: Vec<u32>)
    requires
        from <= to <= c.len(),
    ensures
        r@ == ascii_lower(c@.subrange(from as int, to as int)),
{
    let mut r: Vec<u32> = Vec::new();
    let mut i = from;
    while i < to
        invariant
            from <= i <= to <= c.len(),
            r@ == ascii_lower(c@.subrange(from as int, i as int)),
        decreases to - i,
    {
        r.push(lower_of(c[i]));
        assert(r@ =~= ascii_lower(c@.subrange(from as int, i + 1)));
        i = i + 1;
    }
    r
}

fn stem_key(path: &Vec<char>) -> (r: Option<Vec<u32>>)
    ensures
        match r {
            Some(k) => file_stem(path@) is Some && k@ == ascii_lower(file_stem(path@)->0),
            None => file_stem(path@) is None,
        },
{
    let comps = char_components(path);
    let n = comps.len();
    if n == 0 {
        return None;
    }
    let name = &comps[n - 1];
    assert(views(comps@).last() == name@);
    if is_single(name, '/') || is_single(name, '.') || is_dot_dot(name) {
        return None;
    }
    let mut k = name.len();
    while k > 0 && name[k - 1] != '.'
        invariant
            0 <= k <= name.len(),
            last_index_of(name@, '.', name.len() as int) == last_index_of(name@, '.', k as int),
        decreases k,
    {
        k = k - 1;
    }
    proof {
        if k > 0 {
            assert(last_index_of(name@, '.', k as int) == k - 1);
        }
    }
    if k <= 1 {
        assert(name@.subrange(0, name.len() as int) =~= name@);
        Some(lower_range(name, 0, name.len()))
    } else {
        assert(name@.take(k - 1) =~= name@.subrange(0, k - 1));
        Some(lower_range(name, 0, k - 1))
    }
}

fn codes_equal(a: &Vec<u32>, b: &Vec<u32>) -> (r: bool)
    ensures
        r == (a@ == b@),
{
    if a.len() != b.len() {
        return false;
    }
    let mut i: usize = 0;
    while i < a.len()
        invariant
            0 <= i <= a.len(),
            a.len() == b.len(),
            forall|j: int| 0 <= j < i ==> a@[j] == b@[j],
        decreases a.len() - i,
    {
        if a[i] != b[i] {
            return false;
        }
        i = i + 1;
    }
    assert(a@ =~= b@);
    true
}

/// What the lookups of import resolution need about the nodes.
pub open spec fn lookup_ready(
    nodes: Seq<Seq<char>>,
    node_comps: Seq<Vec<Vec<char>>>,
    keys: Seq<Option<Vec<u32>>>,
    lasts: Seq<bool>,
) -> bool {
    &&& node_comps.len() == nodes.len()
    &&& keys.len() == nodes.len()
    &&& lasts.len() == nodes.len()
    &&& forall|i: int| 0 <= i < nodes.len() ==> views(#[trigger] node_comps[i]@) == components(nodes[i])
    &&& forall|i: int| 0 <= i < nodes.len() ==> #[trigger] lasts[i] == is_last_of_path(nodes, i)
    &&& forall|i: int|
        0 <= i < nodes.len() ==> match #[trigger] keys[i] {
            Some(k) => file_stem(nodes[i]) is Some && k@ == ascii_lower(file_stem(nodes[i])->0),
            None => file_stem(nodes[i]) is None,
        }
}

fn stem_lookup(keys: &Vec<Option<Vec<u32>>>, lasts: &Vec<bool>, key: &Vec<u32>, Ghost(nodes): Ghost<Seq<Seq<char>>>, Ghost(node_comps): Ghost<Seq<Vec<Vec<char>>>>) -> (r: Option<usize>)
    requires
        lookup_ready(nodes, node_comps, keys@, lasts@),
    ensures
        match r {
            Some(i) => stem_matches(nodes, key@, nodes.len() as int).len() == 1 && stem_matches(nodes, key@, nodes.len() as int)[0] == i,
            None => stem_matches(nodes, key@, nodes.len() as int).len() != 1,
        },
{
    let n = keys.len();
    let mut count: usize = 0;
    let mut first: usize = 0;
    let mut i: usize = 0;
    while i < n
        invariant
            0 <= i <= n,
            n == nodes.len(),
            lookup_ready(nodes, node_comps, keys@, lasts@),
            count == stem_matches(nodes, key@, i as int).len(),
            count <= i,
            count >= 1 ==> first == stem_matches(nodes, key@, i as int)[0],
        decreases n - i,
    {
        let matched = lasts[i] && match &keys[i] {
            Some(k) => codes_equal(k, key),
            None => false,
        };
        proof {
            assert(lasts@[i as int] == is_last_of_path(nodes, i as int));
            let _ = keys@[i as int];
        }
        if matched {
            if count == 0 {
                first = i;
            }
            count = count + 1;
        }
        i = i + 1;
    }
    if count == 1 {
        Some(first)
    } else {
        None
    }
}

fn resolve_import(imp: &Vec<char>, from: &Vec<char>, t: &ResolveTables, node_comps: &Vec<Vec<Vec<char>>>, keys: &Vec<Option<Vec<u32>>>, lasts: &Vec<bool>, Ghost(nodes): Ghost<Seq<Seq<char>>>) -> (r: Option<usize>)
    requires
        t.ready(),
        lookup_ready(nodes, node_comps@, keys@, lasts@),
    ensures
        match r {
            Some(i) => import_target(imp@, from@, nodes) == Some(i as int),
            None => import_target(imp@, from@, nodes) is None,
        },
{
    let n = imp.len();
    assert(imp@.subrange(0, n as int) =~= imp@);
    if crate::text::range_starts_with(imp, 0, n, &t.dot_slash) || crate::text::range_starts_with(imp, 0, n, &t.dot_dot_slash) {
        return resolve_relative(imp, from, t, node_comps, Ghost(nodes));
    }
    let start: usize = if crate::text::range_starts_with(imp, 0, n, &t.crate_prefix) {
        t.crate_prefix.len()
    } else if crate::text::range_starts_with(imp, 0, n, &t.self_prefix) {
        t.self_prefix.len()
    } else if crate::text::range_starts_with(imp, 0, n, &t.super_prefix) {
        t.super_prefix.len()
    } else {
        return None;
    };
    let local = copy_chars(imp, start, n);
    assert(local@ =~= imp@.skip(start as int));
    let end = match find_chars(&local, &t.path_sep) {
        Some(p) => p,
        None => local.len(),
    };
    proof {
        if find_from(local@, "::"@, 0) < 0 {
            assert(local@.subrange(0, local.len() as int) =~= local@);
        } else {
            assert(local@.take(end as int) =~= local@.subrange(0, end as int));
        }
    }
    let key = lower_range(&local, 0, end);
    match stem_lookup(keys, lasts, &key, Ghost(nodes), Ghost(node_comps@)) {
        Some(i) => Some(i),
        None => None,
    }
}

proof fn lemma_node_with_self(nodes: Seq<Seq<char>>, i: int)
    requires
        0 <= i < nodes.len(),
    ensures
        i <= node_with(nodes, components(nodes[i])) < nodes.len(),
    decreases nodes.len(),
{
    if i < nodes.len() - 1 && components(nodes.last()) != components(nodes[i]) {
        assert(nodes.drop_last()[i] == nodes[i]);
        lemma_node_with_self(nodes.drop_last(), i);
    }
}

proof fn lemma_import_pairs_len(imps: Seq<String>, path: Seq<char>, from: int, nodes: Seq<Seq<char>>)
    ensures
        import_pairs(imps, path, from, nodes).len() <= imps.len(),
    decreases imps.len(),
{
    if imps.len() > 0 {
        lemma_import_pairs_len(imps.drop_last(), path, from, nodes);
    }
}

proof fn lemma_record_pairs_len(recs: Seq<FeatureRecord>, nodes: Seq<Seq<char>>)
    ensures
        record_pairs(recs, nodes).len() <= total_imports(recs),
    decreases recs.len(),
{
    if recs.len() > 0 {
        lemma_record_pairs_len(recs.drop_last(), nodes);
        let rec = recs.last();
        lemma_import_pairs_len(rec.imports@, rec.path@, node_with(nodes, components(rec.path@)), nodes);
    }
}

proof fn lemma_total_imports_prefix(recs: Seq<FeatureRecord>, i: int)
    requires
        0 <= i <= recs.len(),
    ensures
        total_imports(recs.take(i)) <= total_imports(recs),
    decreases recs.len() - i,
{
    if i < recs.len() {
        lemma_total_imports_prefix(recs, i + 1);
        assert(recs.take(i + 1).drop_last() =~= recs.take(i));
    } else {
        assert(recs.take(i) =~= recs);
    }
}

/// Builds the dependency graph of parsed source files: one node per record,
/// in order, and an edge from each file to each file that one of its imports
/// resolves to (relative imports by path with the usual extensions and index
/// files, `crate::`/`self::`/`super::` imports by a unique module stem).
/// Self-edges and repeated edges are dropped; unresolved imports are skipped.
pub fn build_dependency_graph(records: &Vec<FeatureRecord>) -> (dg: DependencyGraph)
    requires
        records.len() < u32::MAX,
        total_imports(records@) < u32::MAX,
    ensures
        dg.well_formed(),
        dg@.nodes == record_paths(records@),
        dg@.edges == kept_edges(records.len() as int, record_pairs(records@, record_paths(records@))),
{
    let ghost nodes = record_paths(records@);
    let n = records.len();
    let mut paths: Vec<String> = Vec::new();
    let mut chars: Vec<Vec<char>> = Vec::new();
    let mut node_comps: Vec<Vec<Vec<char>>> = Vec::new();
    let mut keys: Vec<Option<Vec<u32>>> = Vec::new();
    let mut i: usize = 0;
    while i < n
        invariant
            0 <= i <= n,
            n == records.len(),
            nodes == record_paths(records@),
            paths.len() == i,
            chars.len() == i,
            node_comps.len() == i,
            keys.len() == i,
            forall|j: int| 0 <= j < i ==> (#[trigger] paths@[j])@ == nodes[j],
            forall|j: int| 0 <= j < i ==> (#[trigger] chars@[j])@ == nodes[j],
            forall|j: int| 0 <= j < i ==> views(#[trigger] node_comps@[j]@) == components(nodes[j]),
            forall|j: int|
                0 <= j < i ==> match #[trigger] keys@[j] {
                    Some(k) => file_stem(nodes[j]) is Some && k@ == ascii_lower(file_stem(nodes[j])->0),
                    None => file_stem(nodes[j]) is None,
                },
        decreases n - i,
    {
        let p = records[i].path.clone();
        let c = chars_of(records[i].path.as_str());
        assert(nodes[i as int] == records@[i as int].path@);
        node_comps.push(char_components(&c));
        keys.push(stem_key(&c));
        paths.push(p);
        chars.push(c);
        i = i + 1;
    }
    let mut lasts: Vec<bool> = Vec::new();
    let mut i: usize = 0;
    while i < n
        invariant
            0 <= i <= n,
            n == nodes.len(),
            node_comps.len() == n,
            forall|j: int| 0 <= j < n ==> views(#[trigger] node_comps@[j]@) == components(nodes[j]),
            lasts.len() == i,
            forall|j: int| 0 <= j < i ==> #[trigger] lasts@[j] == is_last_of_path(nodes, j),
        decreases n - i,
    {
        let found = find_node(&node_comps, &node_comps[i], Ghost(nodes));
        let last = match found {
            Some(k) => k == i,
            None => false,
        };
        lasts.push(last);
        i = i + 1;
    }
    let t = ResolveTables::new();
    let mut pairs: Vec<(usize, usize)> = Vec::new();
    let mut i: usize = 0;
    while i < n
        invariant
            0 <= i <= n,
            n == records.len(),
            nodes == record_paths(records@),
            t.ready(),
            chars.len() == n,
            forall|j: int| 0 <= j < n ==> (#[trigger] chars@[j])@ == nodes[j],
            lookup_ready(nodes, node_comps@, keys@, lasts@),
            total_imports(records@) < u32::MAX,
            pairs@ == record_pairs(records@.take(i as int), nodes),
        decreases n - i,
    {
        let rec = &records[i];
        assert(nodes[i as int] == rec.path@);
        proof {
            lemma_node_with_self(nodes, i as int);
        }
        let from = match find_node(&node_comps, &node_comps[i], Ghost(nodes)) {
            Some(k) => k,
            None => i,
        };
        let ghost base = pairs@;
        let ghost path = rec.path@;
        let mut j: usize = 0;
        while j < rec.imports.len()
            invariant
                0 <= j <= rec.imports.len(),
                t.ready(),
                lookup_ready(nodes, node_comps@, keys@, lasts@),
                i < chars.len(),
                chars@[i as int]@ == path,
                from == node_with(nodes, components(path)),
                pairs@ == base + import_pairs(rec.imports@.take(j as int), path, from as int, nodes),
            decreases rec.imports.len() - j,
        {
            let imp = chars_of(rec.imports[j].as_str());
            assert(rec.imports@.take(j + 1).drop_last() =~= rec.imports@.take(j as int));
            assert(rec.imports@.take(j + 1).last() == rec.imports@[j as int]);
            let ghost before = pairs@;
            match resolve_import(&imp, &chars[i], &t, &node_comps, &keys, &lasts, Ghost(nodes)) {
                Some(target) => {
                    if target != from {
                        pairs.push((from, target));
                        assert(pairs@ =~= before.push((from, target)));
                    }
                },
                None => {},
            }
            j = j + 1;
        }
        assert(rec.imports@.take(rec.imports.len() as int) =~= rec.imports@);
        assert(records@.take(i + 1).drop_last() =~= records@.take(i as int));
        assert(records@.take(i + 1).last() == *rec);
        i = i + 1;
    }
    assert(records@.take(n as int) =~= records@);
    proof {
        lemma_record_pairs_len(records@, nodes);
        assert(paths@.map_values(|p: String| p@) =~= nodes);
    }
    build_dependency_graph_from_edges(&paths, &pairs)
}

proof fn lemma_first_found_at(nodes: Seq<Seq<char>>, cands: Seq<Seq<Seq<char>>>, i: int)
    requires
        0 <= i < cands.len(),
        forall|j: int| 0 <= j < i ==> node_with(nodes, #[trigger] cands[j]) < 0,
        node_with(nodes, cands[i]) >= 0,
    ensures
        first_found(nodes, cands) == Some(node_with(nodes, cands[i])),
    decreases i,
{
    if i > 0 {
        assert(node_with(nodes, cands[0]) < 0);
        let rest = cands.drop_first();
        assert forall|j: int| 0 <= j < i - 1 implies node_with(nodes, #[trigger] rest[j]) < 0 by {
            assert(rest[j] == cands[j + 1]);
        }
        assert(rest[i - 1] == cands[i]);
        lemma_first_found_at(nodes, rest, i - 1);
    }
}

/// A relative import `rel` from a file in directory `dir` tries the
/// extensions `rs`, `py`, `ts`, `tsx`, `js`, `go`, `java` in this order: when
/// no file `dir/rel.X` exists for the extensions before the `i`-th and
/// `dir/rel.Y` exists for the `i`-th extension `Y`, the import names that
/// file.
pub proof fn lemma_relative_extension_order(
    import: Seq<char>,
    from: Seq<char>,
    nodes: Seq<Seq<char>>,
    dir: Seq<Seq<char>>,
    exts: Seq<Seq<char>>,
    i: int,
)
    requires
        exts == seq!["rs"@, "py"@, "ts"@, "tsx"@, "js"@, "go"@, "java"@],
        parent_components(from) == Some(dir),
        0 <= i < 7,
        forall|j: int|
            0 <= j < i ==> node_with(
                nodes,
                join_components(dir, trim_leading(trim_leading(import, "./"@), "../"@) + seq!['.'] + #[trigger] exts[j]),
            ) < 0,
        node_with(nodes, join_components(dir, trim_leading(trim_leading(import, "./"@), "../"@) + seq!['.'] + exts[i])) >= 0,
    ensures
        relative_target(import, from, nodes) == Some(
            node_with(nodes, join_components(dir, trim_leading(trim_leading(import, "./"@), "../"@) + seq!['.'] + exts[i])),
        ),
{
    let rel = trim_leading(trim_leading(import, "./"@), "../"@);
    let cands = relative_candidates(dir, rel);
    assert(source_extensions() == exts);
    assert forall|j: int| 0 <= j < 7 implies #[trigger] cands[j] == join_components(dir, rel + seq!['.'] + exts[j]) by {}
    assert forall|j: int| 0 <= j < i implies node_with(nodes, #[trigger] cands[j]) < 0 by {
        assert(cands[j] == join_components(dir, rel + seq!['.'] + exts[j]));
    }
    lemma_first_found_at(nodes, cands, i);
}

/// In particular a relative import `./X` names `X.ts` in the importing
/// file's directory when neither `X.rs` nor `X.py` exists there.
pub proof fn lemma_relative_ts_after_rs_py(import: Seq<char>, from: Seq<char>, nodes: Seq<Seq<char>>, dir: Seq<Seq<char>>)
    requires
        parent_components(from) == Some(dir),
        node_with(nodes, join_components(dir, trim_leading(trim_leading(import, "./"@), "../"@) + ".rs"@)) < 0,
        node_with(nodes, join_components(dir, trim_leading(trim_leading(import, "./"@), "../"@) + ".py"@)) < 0,
        node_with(nodes, join_components(dir, trim_leading(trim_leading(import, "./"@), "../"@) + ".ts"@)) >= 0,
    ensures
        relative_target(import, from, nodes) == Some(
            node_with(nodes, join_components(dir, trim_leading(trim_leading(import, "./"@), "../"@) + ".ts"@)),
        ),
{
    let exts = seq!["rs"@, "py"@, "ts"@, "tsx"@, "js"@, "go"@, "java"@];
    let rel = trim_leading(trim_leading(import, "./"@), "../"@);
    reveal_strlit(".rs");
    reveal_strlit(".py");
    reveal_strlit(".ts");
    reveal_strlit("rs");
    reveal_strlit("py");
    reveal_strlit("ts");
    assert(rel + ".rs"@ =~= rel + seq!['.'] + exts[0]);
    assert(rel + ".py"@ =~= rel + seq!['.'] + exts[1]);
    assert(rel + ".ts"@ =~= rel + seq!['.'] + exts[2]);
    assert forall|j: int| 0 <= j < 2 implies node_with(nodes, join_components(dir, rel + seq!['.'] + #[trigger] exts[j])) < 0 by {
        if j == 0 {
            assert(rel + seq!['.'] + exts[0] =~= rel + ".rs"@);
        } else {
            assert(rel + seq!['.'] + exts[1] =~= rel + ".py"@);
        }
    }
    lemma_relative_extension_order(import, from, nodes, dir, exts, 2);
}

/// When no file `dir/rel.X` exists for any source extension, a relative
/// import `rel` tries `rel` as a directory, with the index files `mod.rs`,
/// `index.ts`, `index.js`, `__init__.py` in this order, and names the first
/// that exists.
pub proof fn lemma_relative_index_order(
    import: Seq<char>,
    from: Seq<char>,
    nodes: Seq<Seq<char>>,
    dir: Seq<Seq<char>>,
    exts: Seq<Seq<char>>,
    files: Seq<Seq<char>>,
    i: int,
)
    requires
        exts == seq!["rs"@, "py"@, "ts"@, "tsx"@, "js"@, "go"@, "java"@],
        files == seq!["mod.rs"@, "index.ts"@, "index.js"@, "__init__.py"@],
        parent_components(from) == Some(dir),
        0 <= i < 4,
        forall|j: int|
            0 <= j < 7 ==> node_with(
                nodes,
                join_components(dir, trim_leading(trim_leading(import, "./"@), "../"@) + seq!['.'] + #[trigger] exts[j]),
            ) < 0,
        forall|j: int|
            0 <= j < i ==> node_with(
                nodes,
                join_components(dir, trim_leading(trim_leading(import, "./"@), "../"@)).push(#[trigger] files[j]),
            ) < 0,
        node_with(nodes, join_components(dir, trim_leading(trim_leading(import, "./"@), "../"@)).push(files[i])) >= 0,
    ensures
        relative_target(import, from, nodes) == Some(
            node_with(nodes, join_components(dir, trim_leading(trim_leading(import, "./"@), "../"@)).push(files[i])),
        ),
{
    let rel = trim_leading(trim_leading(import, "./"@), "../"@);
    let cands = relative_candidates(dir, rel);
    assert(source_extensions() == exts);
    assert(index_files() == files);
    assert forall|j: int| 0 <= j < 7 implies #[trigger] cands[j] == join_components(dir, rel + seq!['.'] + exts[j]) by {}
    assert forall|j: int| 0 <= j < 4 implies #[trigger] cands[7 + j] == join_components(dir, rel).push(files[j]) by {}
    assert forall|j: int| 0 <= j < 7 + i implies node_with(nodes, #[trigger] cands[j]) < 0 by {
        if j < 7 {
            assert(cands[j] == join_components(dir, rel + seq!['.'] + exts[j]));
        } else {
            assert(cands[7 + (j - 7)] == join_components(dir, rel).push(files[j - 7]));
        }
    }
    assert(cands[7 + i] == join_components(dir, rel).push(files[i]));
    lemma_first_found_at(nodes, cands, 7 + i);
}

} // verus!
