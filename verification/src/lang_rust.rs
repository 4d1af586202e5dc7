//! Feature extraction for Rust source files, from their syntax tree: `use`
//! imports, exported item names, function signatures and pattern hints.
use vstd::prelude::*;
use vstd::string::StringSliceAdditionalSpecFns;
use vstd::utf8::{decode_utf8, is_char_boundary, valid_utf8};
use crate::feature_record::{FeatureRecord, PatternHint};
use crate::syntax::{kind_in, kind_listed, visit, walk, derefs, SyntaxNode};
use crate::text::{
    chars_of, find_chars, find_from, lemma_chars_are_decoded, owned, range_starts_with, starts_with,
    str_from_utf8, string_of, strip_trailing, strip_trailing_end, trim, trim_range, trimmed,
};

verus! {

/// The byte cap on pattern hint text.
pub const HINT_TEXT_LIMIT: usize = 256;

/// Node kinds collected as pattern hints.
pub open spec fn pattern_kinds() -> Seq<Seq<char>> {
    seq![
        "try_expression"@,
        "match_expression"@,
        "macro_invocation"@,
        "await_expression"@,
        "closure_expression"@,
    ]
}

/// Node kinds that can be exported from a Rust file.
pub open spec fn exportable_kinds() -> Seq<Seq<char>> {
    seq![
        "function_item"@,
        "struct_item"@,
        "enum_item"@,
        "trait_item"@,
        "type_item"@,
        "const_item"@,
        "static_item"@,
        "mod_item"@,
    ]
}

/// The bytes a node spans, when its span lies within the source.
pub open spec fn node_bytes(n: SyntaxNode, source: Seq<u8>) -> Option<Seq<u8>> {
    if n.start_byte <= n.end_byte <= source.len() {
        Some(source.subrange(n.start_byte as int, n.end_byte as int))
    } else {
        None
    }
}

/// The text of a node: its bytes decoded as UTF-8, when they are valid.
pub open spec fn node_text(n: SyntaxNode, source: Seq<u8>) -> Option<Seq<char>> {
    match node_bytes(n, source) {
        Some(b) => if valid_utf8(b) {
            Some(decode_utf8(b))
        } else {
            None
        },
        None => None,
    }
}

/// The import path of a `use` declaration's text: what follows the first
/// `use `, without trailing semicolons and surrounding white space, when
/// that is not empty.
pub open spec fn import_of(text: Seq<char>) -> Option<Seq<char>> {
    let p = find_from(text, "use "@, 0);
    if p < 0 {
        None
    } else {
        let r = trim(strip_trailing(text.skip(p + "use "@.len()), ';'));
        if r.len() == 0 {
            None
        } else {
            Some(r)
        }
    }
}

/// Index of the first node of `ns` at or after `i` whose kind is in `kinds`,
/// or -1.
pub open spec fn first_of_kind(ns: Seq<SyntaxNode>, kinds: Seq<Seq<char>>, i: int) -> int
    decreases ns.len() - i,
{
    if i < 0 || i >= ns.len() {
        -1
    } else if kind_in(ns[i], kinds) {
        i
    } else {
        first_of_kind(ns, kinds, i + 1)
    }
}

/// A node is public when its first visibility modifier reads `pub…` once
/// trimmed.
pub open spec fn is_public(n: SyntaxNode, source: Seq<u8>) -> bool {
    let i = first_of_kind(n.children@, seq!["visibility_modifier"@], 0);
    i >= 0 && match node_text(n.children@[i], source) {
        Some(t) => starts_with(trim(t), "pub"@),
        None => false,
    }
}

/// The name of an item: the trimmed text of its first identifier child.
pub open spec fn declared_name(n: SyntaxNode, source: Seq<u8>) -> Option<Seq<char>> {
    let i = first_of_kind(n.children@, seq!["identifier"@, "type_identifier"@], 0);
    if i < 0 {
        None
    } else {
        match node_text(n.children@[i], source) {
            Some(t) => Some(trim(t)),
            None => None,
        }
    }
}

/// The signature of a function item: its text up to its body block,
/// trimmed, or its whole text when it has no block.
pub open spec fn signature_of(n: SyntaxNode, source: Seq<u8>) -> Option<Seq<char>> {
    let i = first_of_kind(n.children@, seq!["block"@], 0);
    if i >= 0 {
        let c = n.children@[i];
        let b = if n.start_byte <= c.start_byte <= source.len() {
            source.subrange(n.start_byte as int, c.start_byte as int)
        } else {
            Seq::<u8>::empty()
        };
        if valid_utf8(b) {
            Some(trim(decode_utf8(b)))
        } else {
            None
        }
    } else {
        match node_text(n, source) {
            Some(t) => Some(trim(t)),
            None => None,
        }
    }
}

/// The last character boundary of `bytes` at or before `j`.
pub open spec fn boundary_before(bytes: Seq<u8>, j: int) -> int
    decreases j,
{
    if j <= 0 {
        0
    } else if is_char_boundary(bytes, j) {
        j
    } else {
        boundary_before(bytes, j - 1)
    }
}

/// The bytes of a hint's text: the node's text (empty when it is not valid
/// UTF-8), cut at the last character boundary within the byte cap when it
/// is longer.
pub open spec fn hint_bytes(n: SyntaxNode, source: Seq<u8>) -> Seq<u8> {
    let raw = match node_bytes(n, source) {
        Some(b) => if valid_utf8(b) {
            b
        } else {
            Seq::<u8>::empty()
        },
        None => Seq::<u8>::empty(),
    };
    if raw.len() > HINT_TEXT_LIMIT {
        raw.take(boundary_before(raw, HINT_TEXT_LIMIT as int))
    } else {
        raw
    }
}

/// The import paths of the `use` declarations among `ns`, in order.
pub open spec fn imports_in(ns: Seq<SyntaxNode>, source: Seq<u8>) -> Seq<Seq<char>>
    decreases ns.len(),
{
    if ns.len() == 0 {
        Seq::empty()
    } else {
        let r = imports_in(ns.drop_last(), source);
        let n = ns.last();
        if n.kind@ == "use_declaration"@ && node_text(n, source) is Some && import_of(
            node_text(n, source)->0,
        ) is Some {
            r.push(import_of(node_text(n, source)->0)->0)
        } else {
            r
        }
    }
}

/// The names of the public exportable items among `ns`, in order.
pub open spec fn exports_in(ns: Seq<SyntaxNode>, source: Seq<u8>) -> Seq<Seq<char>>
    decreases ns.len(),
{
    if ns.len() == 0 {
        Seq::empty()
    } else {
        let r = exports_in(ns.drop_last(), source);
        let n = ns.last();
        if kind_in(n, exportable_kinds()) && is_public(n, source) && declared_name(n, source) is Some {
            r.push(declared_name(n, source)->0)
        } else {
            r
        }
    }
}

/// The signatures of the function items among `ns`, in order.
pub open spec fn signatures_in(ns: Seq<SyntaxNode>, source: Seq<u8>) -> Seq<Seq<char>>
    decreases ns.len(),
{
    if ns.len() == 0 {
        Seq::empty()
    } else {
        let r = signatures_in(ns.drop_last(), source);
        let n = ns.last();
        if n.kind@ == "function_item"@ && signature_of(n, source) is Some {
            r.push(signature_of(n, source)->0)
        } else {
            r
        }
    }
}

/// The nodes among `ns` whose kind is a pattern kind, in order.
pub open spec fn pattern_nodes(ns: Seq<SyntaxNode>) -> Seq<SyntaxNode>
    decreases ns.len(),
{
    if ns.len() == 0 {
        Seq::empty()
    } else {
        let r = pattern_nodes(ns.drop_last());
        if kind_in(ns.last(), pattern_kinds()) {
            r.push(ns.last())
        } else {
            r
        }
    }
}

/// `h` is the hint for node `n`.
pub open spec fn hint_for(h: PatternHint, n: SyntaxNode, source: Seq<u8>) -> bool {
    &&& h.node_kind@ == n.kind@
    &&& h.start_byte == n.start_byte
    &&& h.end_byte == n.end_byte
    &&& h.start_row == n.start_row
    &&& h.start_col == n.start_col
    &&& h.text@ == decode_utf8(hint_bytes(n, source))
}

/// The views of a list of strings.
pub open spec fn string_views(v: Seq<String>) -> Seq<Seq<char>> {
    v.map_values(|s: String| s@)
}

fn kinds(names: &[&str]) -> (v: Vec<String>)
    ensures
        string_views(v@) == names@.map_values(|s: &str| s@),
{
    let mut v: Vec<String> = Vec::new();
    let mut i: usize = 0;
    while i < names.len()
        invariant
            0 <= i <= names.len(),
            string_views(v@) == names@.take(i as int).map_values(|s: &str| s@),
        decreases names.len() - i,
    {
        let ghost before = v@;
        let name = owned(names[i]);
        assert(name@ == names@[i as int]@);
        v.push(name);
        assert(string_views(v@) =~= string_views(before).push(names@[i as int]@));
        assert(names@.take(i + 1).map_values(|s: &str| s@) =~= names@.take(i as int).map_values(|s: &str| s@).push(names@[i as int]@));
        i = i + 1;
    }
    assert(names@.take(names.len() as int) =~= names@);
    v
}

/// The text of node `n`, when its span lies within the source and is valid
/// UTF-8.
fn text_of<'a>(n: &SyntaxNode, source: &'a [u8]) -> (r: Option<&'a str>)
    ensures
        r is Some <==> node_text(*n, source@) is Some,
        r matches Some(s) ==> s@ == node_text(*n, source@)->0 && s.spec_bytes() == node_bytes(
            *n,
            source@,
        )->0,
{
    if n.start_byte <= n.end_byte && n.end_byte <= source.len() {
        let b = vstd::slice::slice_subrange(source, n.start_byte, n.end_byte);
        match str_from_utf8(b) {
            Some(s) => {
                proof {
                    lemma_chars_are_decoded(s);
                }
                Some(s)
            },
            None => None,
        }
    } else {
        None
    }
}

fn first_child_of_kind(n: &SyntaxNode, ks: &Vec<String>) -> (r: Option<usize>)
    ensures
        match r {
            Some(i) => i == first_of_kind(n.children@, string_views(ks@), 0) && i < n.children.len(),
            None => first_of_kind(n.children@, string_views(ks@), 0) == -1,
        },
{
    let mut i: usize = 0;
    while i < n.children.len()
        invariant
            0 <= i <= n.children.len(),
            first_of_kind(n.children@, string_views(ks@), 0) == first_of_kind(
                n.children@,
                string_views(ks@),
                i as int,
            ),
        decreases n.children.len() - i,
    {
        if kind_listed(&n.children[i].kind, ks) {
            return Some(i);
        }
        i = i + 1;
    }
    None
}

/// The import path of a `use` declaration's text.
fn import_from(text: &str) -> (r: Option<String>)
    ensures
        match r {
            Some(s) => import_of(text@) == Some(s@),
            None => import_of(text@) is None,
        },
{
    let c = chars_of(text);
    let pat = chars_of("use ");
    match find_chars(&c, &pat) {
        None => None,
        Some(p) => {
            let start = p + pat.len();
            let e = strip_trailing_end(&c, start, c.len(), ';');
            let (b, f) = trim_range(&c, start, e);
            proof {
                assert(c@.skip(start as int) =~= c@.subrange(start as int, c.len() as int));
            }
            if b == f {
                None
            } else {
                Some(string_of(&c, b, f))
            }
        },
    }
}

fn public_item(n: &SyntaxNode, source: &[u8], vis: &Vec<String>, pub_chars: &Vec<char>) -> (r: bool)
    requires
        string_views(vis@) == seq!["visibility_modifier"@],
        pub_chars@ == "pub"@,
    ensures
        r == is_public(*n, source@),
{
    match first_child_of_kind(n, vis) {
        None => false,
        Some(i) => match text_of(&n.children[i], source) {
            None => false,
            Some(t) => {
                let c = chars_of(t);
                let (b, e) = trim_range(&c, 0, c.len());
                assert(c@.subrange(0, c.len() as int) =~= c@);
                range_starts_with(&c, b, e, pub_chars)
            },
        },
    }
}

fn item_name(n: &SyntaxNode, source: &[u8], ids: &Vec<String>) -> (r: Option<String>)
    requires
        string_views(ids@) == seq!["identifier"@, "type_identifier"@],
    ensures
        match r {
            Some(s) => declared_name(*n, source@) == Some(s@),
            None => declared_name(*n, source@) is None,
        },
{
    match first_child_of_kind(n, ids) {
        None => None,
        Some(i) => match text_of(&n.children[i], source) {
            None => None,
            Some(t) => {
                let c = chars_of(t);
                assert(c@.subrange(0, c.len() as int) =~= c@);
                Some(trimmed(&c, 0, c.len()))
            },
        },
    }
}

fn function_signature(n: &SyntaxNode, source: &[u8], blocks: &Vec<String>) -> (r: Option<String>)
    requires
        string_views(blocks@) == seq!["block"@],
    ensures
        match r {
            Some(s) => signature_of(*n, source@) == Some(s@),
            None => signature_of(*n, source@) is None,
        },
{
    match first_child_of_kind(n, blocks) {
        Some(i) => {
            let cs = n.children[i].start_byte;
            let b: &[u8] = if n.start_byte <= cs && cs <= source.len() {
                vstd::slice::slice_subrange(source, n.start_byte, cs)
            } else {
                vstd::slice::slice_subrange(source, 0, 0)
            };
            assert(b@ == (if n.start_byte <= cs <= source@.len() {
                source@.subrange(n.start_byte as int, cs as int)
            } else {
                Seq::<u8>::empty()
            }));
            match str_from_utf8(b) {
                None => None,
                Some(t) => {
                    proof {
                        lemma_chars_are_decoded(t);
                    }
                    let c = chars_of(t);
                    assert(c@.subrange(0, c.len() as int) =~= c@);
                    Some(trimmed(&c, 0, c.len()))
                },
            }
        },
        None => match text_of(n, source) {
            None => None,
            Some(t) => {
                let c = chars_of(t);
                assert(c@.subrange(0, c.len() as int) =~= c@);
                Some(trimmed(&c, 0, c.len()))
            },
        },
    }
}

fn hint_text(n: &SyntaxNode, source: &[u8]) -> (r: String)
    ensures
        r@ == decode_utf8(hint_bytes(*n, source@)),
{
    let raw: &str = match text_of(n, source) {
        Some(t) => t,
        None => "",
    };
    let ghost rb = raw.spec_bytes();
    proof {
        reveal_strlit("");
        lemma_chars_are_decoded(raw);
        if node_text(*n, source@) is None {
            assert(raw@.len() == 0);
            assert(rb =~= Seq::<u8>::empty());
        }
    }
    assert(rb == match node_bytes(*n, source@) {
        Some(b) => if valid_utf8(b) {
            b
        } else {
            Seq::<u8>::empty()
        },
        None => Seq::<u8>::empty(),
    });
    if raw.len() > HINT_TEXT_LIMIT {
        let mut e = HINT_TEXT_LIMIT;
        while e > 0 && !raw.is_char_boundary(e)
            invariant
                0 <= e <= HINT_TEXT_LIMIT < rb.len(),
                rb == raw.spec_bytes(),
                boundary_before(rb, HINT_TEXT_LIMIT as int) == boundary_before(rb, e as int),
            decreases e,
        {
            e = e - 1;
        }
        let bytes = raw.as_bytes();
        let prefix = vstd::slice::slice_subrange(bytes, 0, e);
        proof {
            lemma_chars_are_decoded(raw);
            vstd::utf8::is_char_boundary_start_end_of_seq(rb);
            vstd::utf8::valid_utf8_split(rb, e as int);
            assert(prefix@ =~= rb.take(e as int));
            assert(rb.take(e as int) =~= rb.subrange(0, e as int));
        }
        match str_from_utf8(prefix) {
            Some(t) => {
                proof {
                    lemma_chars_are_decoded(t);
                }
                owned(t)
            },
            None => {
                assert(false);
                owned("")
            },
        }
    } else {
        proof {
            lemma_chars_are_decoded(raw);
        }
        owned(raw)
    }
}

/// The import paths of the `use` declarations under `root`, in walk order;
/// a `use` declaration is not descended into.
pub fn extract_imports(root: &SyntaxNode, source: &[u8]) -> (imports: Vec<String>)
    ensures
        string_views(imports@) == imports_in(visit(*root, seq!["use_declaration"@]), source@),
{
    let stops = kinds(&["use_declaration"]);
    let order = walk(root, &stops);
    let ghost ns = derefs(order@);
    assert(string_views(stops@) =~= seq!["use_declaration"@]);
    assert(stops@[0]@ == string_views(stops@)[0]);
    let mut out: Vec<String> = Vec::new();
    let mut i: usize = 0;
    while i < order.len()
        invariant
            0 <= i <= order.len(),
            ns == derefs(order@),
            string_views(stops@) == seq!["use_declaration"@],
            stops.len() == 1,
            stops@[0]@ == "use_declaration"@,
            string_views(out@) == imports_in(ns.take(i as int), source@),
        decreases order.len() - i,
    {
        let n = order[i];
        proof {
            assert(ns.take(i + 1).drop_last() =~= ns.take(i as int));
            assert(ns.take(i + 1).last() == *n);
        }
        let ghost before = out@;
        if n.kind == stops[0] {
            match text_of(n, source) {
                Some(t) => match import_from(t) {
                    Some(s) => {
                        out.push(s);
                        assert(string_views(out@) =~= string_views(before).push(s@));
                    },
                    None => {},
                },
                None => {},
            }
        }
        i = i + 1;
    }
    assert(ns.take(order.len() as int) =~= ns);
    out
}

/// The names of the public items under `root`, in walk order; an exportable
/// item is not descended into, so only outermost items are listed.
pub fn extract_exports(root: &SyntaxNode, source: &[u8]) -> (exports: Vec<String>)
    ensures
        string_views(exports@) == exports_in(visit(*root, exportable_kinds()), source@),
{
    let stops = kinds(
        &[
            "function_item",
            "struct_item",
            "enum_item",
            "trait_item",
            "type_item",
            "const_item",
            "static_item",
            "mod_item",
        ],
    );
    let vis = kinds(&["visibility_modifier"]);
    let ids = kinds(&["identifier", "type_identifier"]);
    let pub_chars = chars_of("pub");
    assert(string_views(stops@) =~= exportable_kinds());
    assert(string_views(vis@) =~= seq!["visibility_modifier"@]);
    assert(string_views(ids@) =~= seq!["identifier"@, "type_identifier"@]);
    let order = walk(root, &stops);
    let ghost ns = derefs(order@);
    let mut out: Vec<String> = Vec::new();
    let mut i: usize = 0;
    while i < order.len()
        invariant
            0 <= i <= order.len(),
            ns == derefs(order@),
            string_views(stops@) == exportable_kinds(),
            string_views(vis@) == seq!["visibility_modifier"@],
            string_views(ids@) == seq!["identifier"@, "type_identifier"@],
            pub_chars@ == "pub"@,
            string_views(out@) == exports_in(ns.take(i as int), source@),
        decreases order.len() - i,
    {
        let n = order[i];
        proof {
            assert(ns.take(i + 1).drop_last() =~= ns.take(i as int));
            assert(ns.take(i + 1).last() == *n);
        }
        let ghost before = out@;
        if kind_listed(&n.kind, &stops) && public_item(n, source, &vis, &pub_chars) {
            match item_name(n, source, &ids) {
                Some(name) => {
                    out.push(name);
                    assert(string_views(out@) =~= string_views(before).push(name@));
                },
                None => {},
            }
        }
        i = i + 1;
    }
    assert(ns.take(order.len() as int) =~= ns);
    out
}

/// The signatures of the function items under `root`, in walk order.
pub fn extract_signatures(root: &SyntaxNode, source: &[u8]) -> (signatures: Vec<String>)
    ensures
        string_views(signatures@) == signatures_in(visit(*root, Seq::empty()), source@),
{
    let stops: Vec<String> = Vec::new();
    let blocks = kinds(&["block"]);
    let fn_kind = owned("function_item");
    assert(string_views(stops@) =~= Seq::<Seq<char>>::empty());
    assert(string_views(blocks@) =~= seq!["block"@]);
    let order = walk(root, &stops);
    let ghost ns = derefs(order@);
    let mut out: Vec<String> = Vec::new();
    let mut i: usize = 0;
    while i < order.len()
        invariant
            0 <= i <= order.len(),
            ns == derefs(order@),
            string_views(blocks@) == seq!["block"@],
            fn_kind@ == "function_item"@,
            string_views(out@) == signatures_in(ns.take(i as int), source@),
        decreases order.len() - i,
    {
        let n = order[i];
        proof {
            assert(ns.take(i + 1).drop_last() =~= ns.take(i as int));
            assert(ns.take(i + 1).last() == *n);
        }
        let ghost before = out@;
        if n.kind == fn_kind {
            match function_signature(n, source, &blocks) {
                Some(sig) => {
                    out.push(sig);
                    assert(string_views(out@) =~= string_views(before).push(sig@));
                },
                None => {},
            }
        }
        i = i + 1;
    }
    assert(ns.take(order.len() as int) =~= ns);
    out
}

/// The pattern hints under `root`, in walk order: one per node of a pattern
/// kind.
pub fn collect_hints(root: &SyntaxNode, source: &[u8]) -> (hints: Vec<PatternHint>)
    ensures
        hints@.len() == pattern_nodes(visit(*root, Seq::empty())).len(),
        forall|k: int|
            0 <= k < hints@.len() ==> hint_for(#[trigger] hints@[k], pattern_nodes(visit(*root, Seq::empty()))[k], source@),
{
    let stops: Vec<String> = Vec::new();
    let pk = kinds(&["try_expression", "match_expression", "macro_invocation", "await_expression", "closure_expression"]);
    assert(string_views(stops@) =~= Seq::<Seq<char>>::empty());
    assert(string_views(pk@) =~= pattern_kinds());
    let order = walk(root, &stops);
    let ghost ns = derefs(order@);
    let mut out: Vec<PatternHint> = Vec::new();
    let mut i: usize = 0;
    while i < order.len()
        invariant
            0 <= i <= order.len(),
            ns == derefs(order@),
            string_views(pk@) == pattern_kinds(),
            out@.len() == pattern_nodes(ns.take(i as int)).len(),
            forall|k: int| 0 <= k < out@.len() ==> hint_for(#[trigger] out@[k], pattern_nodes(ns.take(i as int))[k], source@),
        decreases order.len() - i,
    {
        let n = order[i];
        proof {
            assert(ns.take(i + 1).drop_last() =~= ns.take(i as int));
            assert(ns.take(i + 1).last() == *n);
        }
        let ghost before = out@;
        let ghost prev = pattern_nodes(ns.take(i as int));
        if kind_listed(&n.kind, &pk) {
            let text = hint_text(n, source);
            let kind = n.kind.clone();
            let h = PatternHint {
                node_kind: kind,
                start_byte: n.start_byte,
                end_byte: n.end_byte,
                start_row: n.start_row,
                start_col: n.start_col,
                text,
            };
            out.push(h);
            proof {
                let cur = pattern_nodes(ns.take(i + 1));
                assert(cur == prev.push(*n));
                assert forall|k: int| 0 <= k < out@.len() implies hint_for(#[trigger] out@[k], cur[k], source@) by {
                    if k < before.len() {
                        assert(out@[k] == before[k]);
                        assert(cur[k] == prev[k]);
                    }
                }
            }
        }
        i = i + 1;
    }
    assert(ns.take(order.len() as int) =~= ns);
    out
}

/// `r` holds the features of the Rust file at `path` with syntax tree `root`
/// over `source`: its imports, exports, signatures and pattern hints.
pub open spec fn extracted_features(r: FeatureRecord, path: Seq<char>, root: SyntaxNode, source: Seq<u8>) -> bool {
    &&& r.path@ == path
    &&& r.language@ == "rust"@
    &&& string_views(r.imports@) == imports_in(visit(root, seq!["use_declaration"@]), source)
    &&& string_views(r.exports@) == exports_in(visit(root, exportable_kinds()), source)
    &&& string_views(r.signatures@) == signatures_in(visit(root, Seq::empty()), source)
    &&& r.pattern_hints@.len() == pattern_nodes(visit(root, Seq::empty())).len()
    &&& forall|k: int|
        0 <= k < r.pattern_hints@.len() ==> hint_for(
            #[trigger] r.pattern_hints@[k],
            pattern_nodes(visit(root, Seq::empty()))[k],
            source,
        )
}

/// Extracts the features of a Rust source file from its syntax tree.
pub fn extract_rust_features(path: &str, root: &SyntaxNode, source: &[u8]) -> (r: FeatureRecord)
    ensures
        extracted_features(r, path@, *root, source@),
{
    FeatureRecord {
        path: owned(path),
        language: owned("rust"),
        imports: extract_imports(root, source),
        exports: extract_exports(root, source),
        signatures: extract_signatures(root, source),
        pattern_hints: collect_hints(root, source),
    }
}

proof fn lemma_boundary_before(bytes: Seq<u8>, j: int)
    requires
        valid_utf8(bytes),
        0 <= j <= bytes.len(),
    ensures
        0 <= boundary_before(bytes, j) <= j,
        is_char_boundary(bytes, boundary_before(bytes, j)),
    decreases j,
{
    if j <= 0 {
        vstd::utf8::is_char_boundary_start_end_of_seq(bytes);
    } else if !is_char_boundary(bytes, j) {
        lemma_boundary_before(bytes, j - 1);
    }
}

/// A pattern hint's text never exceeds the byte cap and is whole UTF-8
/// characters: a prefix of the node's text cut at a character boundary.
pub proof fn lemma_hint_text_within_cap(n: SyntaxNode, source: Seq<u8>)
    ensures
        hint_bytes(n, source).len() <= HINT_TEXT_LIMIT,
        valid_utf8(hint_bytes(n, source)),
        node_text(n, source) matches Some(t) ==> hint_bytes(n, source) == node_bytes(n, source)->0.take(
            hint_bytes(n, source).len() as int,
        ),
{
    let raw = match node_bytes(n, source) {
        Some(b) => if valid_utf8(b) {
            b
        } else {
            Seq::<u8>::empty()
        },
        None => Seq::<u8>::empty(),
    };
    assert(valid_utf8(raw)) by {
        if raw.len() == 0 {
            assert(raw =~= vstd::utf8::encode_utf8(Seq::<char>::empty()));
            vstd::utf8::encode_utf8_valid_utf8(Seq::<char>::empty());
        }
    }
    if raw.len() > HINT_TEXT_LIMIT {
        let e = boundary_before(raw, HINT_TEXT_LIMIT as int);
        lemma_boundary_before(raw, HINT_TEXT_LIMIT as int);
        vstd::utf8::valid_utf8_split(raw, e);
        assert(raw.take(e) =~= raw.subrange(0, e));
        assert(raw.take(e).len() == e);
    } else {
        if node_text(n, source) is Some {
            assert(raw.take(raw.len() as int) =~= raw);
        }
    }
}

proof fn lemma_first_of_kind_at(ns: Seq<SyntaxNode>, kinds: Seq<Seq<char>>, j: int, i: int)
    requires
        0 <= j <= i < ns.len(),
        kinds.contains(ns[i].kind@),
        forall|m: int| j <= m < i ==> !kinds.contains((#[trigger] ns[m]).kind@),
    ensures
        first_of_kind(ns, kinds, j) == i,
    decreases i - j,
{
    if j < i {
        lemma_first_of_kind_at(ns, kinds, j + 1, i);
    }
}

/// The exported name of an item is read from its first child that is an
/// identifier or a type identifier: when child `i` is one and no earlier
/// child is, the name is that child's trimmed text, whatever the later
/// children are (such as the type identifier of a function's return type).
pub proof fn lemma_name_is_first_identifier(n: SyntaxNode, source: Seq<u8>, i: int)
    requires
        0 <= i < n.children@.len(),
        n.children@[i].kind@ == "identifier"@ || n.children@[i].kind@ == "type_identifier"@,
        forall|j: int|
            0 <= j < i ==> (#[trigger] n.children@[j]).kind@ != "identifier"@ && n.children@[j].kind@
                != "type_identifier"@,
    ensures
        declared_name(n, source) == match node_text(n.children@[i], source) {
            Some(t) => Some(trim(t)),
            None => None,
        },
{
    let ks = seq!["identifier"@, "type_identifier"@];
    assert(ks.contains(n.children@[i].kind@)) by {
        if n.children@[i].kind@ == "identifier"@ {
            assert(ks[0] == n.children@[i].kind@);
        } else {
            assert(ks[1] == n.children@[i].kind@);
        }
    }
    assert forall|m: int| 0 <= m < i implies !ks.contains((#[trigger] n.children@[m]).kind@) by {
        if ks.contains(n.children@[m].kind@) {
            let k = choose|k: int| 0 <= k < ks.len() && ks[k] == n.children@[m].kind@;
        }
    }
    lemma_first_of_kind_at(n.children@, ks, 0, i);
}

} // verus!
