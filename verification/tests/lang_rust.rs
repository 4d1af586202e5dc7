use sdivi::feature_record::FeatureRecord;
use sdivi::rust_parse::parse_rust_file;

fn parse(source: &str) -> FeatureRecord {
    parse_rust_file("test.rs", source)
}

#[test]
fn plain_use_import_is_extracted_without_keyword_prefix() {
    let record = parse("use std::collections::BTreeMap;\n");
    assert_eq!(record.imports.len(), 1, "one use statement → one import");
    assert_eq!(
        record.imports[0], "std::collections::BTreeMap",
        "import must not include 'use' keyword or trailing semicolon"
    );
}

#[test]
fn multiple_use_declarations_each_produce_one_import() {
    let record = parse("use std::fmt;\nuse std::collections::BTreeMap;\n");
    assert_eq!(record.imports.len(), 2, "two use statements → two imports");
}

#[test]
fn pub_use_import_is_captured_as_one_entry() {
    let record = parse("pub use crate::foo::Bar;\n");
    assert_eq!(
        record.imports.len(),
        1,
        "pub use must produce exactly one import entry, got: {:?}",
        record.imports
    );
}

#[test]
fn pub_use_import_path_excludes_pub_keyword() {
    let record = parse("pub use crate::foo::Bar;\n");
    assert_eq!(record.imports.len(), 1);
    let import = &record.imports[0];
    assert!(
        !import.starts_with("pub "),
        "import path must not include 'pub' keyword prefix, got: {import:?}"
    );
}

#[test]
fn pub_fn_is_exported_by_name() {
    let record = parse("pub fn hello() {}\n");
    assert!(
        record.exports.contains(&"hello".to_string()),
        "pub fn name must appear in exports, got: {:?}",
        record.exports
    );
}

#[test]
fn private_fn_is_not_exported() {
    let record = parse("fn private_fn() {}\n");
    assert!(
        !record.exports.contains(&"private_fn".to_string()),
        "private fn must not appear in exports, got: {:?}",
        record.exports
    );
}

#[test]
fn pub_struct_is_exported_by_name() {
    let record = parse("pub struct Point { pub x: f64, pub y: f64 }\n");
    assert!(
        record.exports.contains(&"Point".to_string()),
        "pub struct name must appear in exports, got: {:?}",
        record.exports
    );
}

#[test]
fn pub_mod_name_appears_in_exports() {
    let record = parse("pub mod outer { pub fn inner() {} }\n");
    assert!(
        record.exports.contains(&"outer".to_string()),
        "pub mod name must appear in exports, got: {:?}",
        record.exports
    );
}

#[test]
fn no_export_name_appears_more_than_once() {
    let record = parse("pub mod outer { pub fn inner() {} }\n");
    let mut seen = std::collections::HashSet::new();
    for export in &record.exports {
        assert!(
            seen.insert(export.clone()),
            "export {export:?} appeared more than once — double-counting in extract_exports, full list: {:?}",
            record.exports
        );
    }
}

#[test]
fn pub_fn_inside_pub_mod_not_in_top_level_exports() {
    let record = parse("pub mod outer { pub fn inner() {} }\n");
    assert!(
        !record.exports.contains(&"inner".to_string()),
        "nested pub fn 'inner' must not appear as a top-level export; \
         it is accessible via outer::inner. Got exports: {:?}",
        record.exports
    );
}

#[test]
fn collect_hints_match_expression_captured() {
    let record = parse("fn f(x: u8) -> u8 { match x { 0 => 0, _ => 1 } }\n");
    let has_match = record
        .pattern_hints
        .iter()
        .any(|h| h.node_kind == "match_expression");
    assert!(has_match, "match_expression must appear in pattern_hints");
}

#[test]
fn collect_hints_long_unicode_text_truncated_at_char_boundary() {
    let unicode_fill = "á".repeat(200);
    let source = format!(
        "fn f(x: u8) -> u8 {{\n    match x {{\n        0 => {{ let _s = \"{unicode_fill}\"; 0 }}\n        _ => 1,\n    }}\n}}\n"
    );
    let record = parse(&source);

    let match_hints: Vec<_> = record
        .pattern_hints
        .iter()
        .filter(|h| h.node_kind == "match_expression")
        .collect();
    assert!(
        !match_hints.is_empty(),
        "expected at least one match_expression hint for Unicode source"
    );

    for hint in &record.pattern_hints {
        assert!(
            hint.text.len() <= 256,
            "hint text must be ≤ 256 bytes after truncation, got {} bytes for node {:?}",
            hint.text.len(),
            hint.node_kind
        );
        assert!(
            hint.text.is_char_boundary(hint.text.len()),
            "hint text must end at a valid char boundary"
        );
    }
}

#[test]
fn collect_hints_try_expression_captured() {
    let record = parse("fn f() -> Result<u8, ()> { let _x = some_fn()?; Ok(0) }\n");
    let has_try = record
        .pattern_hints
        .iter()
        .any(|h| h.node_kind == "try_expression");
    assert!(has_try, "try_expression (?) must appear in pattern_hints");
}

#[test]
fn record_names_path_and_language() {
    let record = parse("");
    assert_eq!(record.path, "test.rs");
    assert_eq!(record.language, "rust");
    assert!(record.imports.is_empty() && record.exports.is_empty());
    assert!(record.signatures.is_empty() && record.pattern_hints.is_empty());
}

#[test]
fn imports_come_in_walk_order_with_visibility_stripped() {
    let record = parse("use std::fmt;\npub(crate) use crate::a::{B, C};\n");
    assert_eq!(record.imports, vec!["crate::a::{B, C}".to_string(), "std::fmt".to_string()]);
}

#[test]
fn signatures_stop_at_the_body() {
    let record = parse("pub fn add(a: u8, b: u8) -> u8 {\n    a + b\n}\n");
    assert_eq!(record.signatures, vec!["pub fn add(a: u8, b: u8) -> u8".to_string()]);
}

#[test]
fn exports_cover_each_public_item_kind_once() {
    let record = parse(
        "pub struct S;\npub enum E { A }\npub trait T {}\npub type A = u8;\npub const C: u8 = 1;\npub static X: u8 = 2;\nstruct Hidden;\n",
    );
    let mut names = record.exports.clone();
    names.sort();
    assert_eq!(names, vec!["A", "C", "E", "S", "T", "X"]);
}

#[test]
fn hint_records_position_and_exact_short_text() {
    let record = parse("fn f() {\n    let g = |x: u8| x;\n}\n");
    let closure = record
        .pattern_hints
        .iter()
        .find(|h| h.node_kind == "closure_expression")
        .expect("closure hint");
    assert_eq!(closure.text, "|x: u8| x");
    assert_eq!(closure.start_row, 1);
    assert_eq!(closure.start_col, 12);
    assert_eq!(closure.end_byte - closure.start_byte, closure.text.len());
}

#[test]
fn long_ascii_hint_text_is_cut_at_the_cap() {
    let body = "x".repeat(400);
    let source = format!("fn f() {{ let _v = vec![\"{body}\"]; }}\n");
    let record = parse(&source);
    let mac = record
        .pattern_hints
        .iter()
        .find(|h| h.node_kind == "macro_invocation")
        .expect("macro hint");
    assert_eq!(mac.text.len(), 256);
    assert!(mac.text.starts_with("vec![\""));
}

#[test]
fn multibyte_hint_text_drops_the_straddling_character() {
    let fill = "á".repeat(200);
    let source = format!("fn f() {{ let _v = vec![\"a{fill}\"]; }}\n");
    let record = parse(&source);
    let mac = record
        .pattern_hints
        .iter()
        .find(|h| h.node_kind == "macro_invocation")
        .expect("macro hint");
    // `vec!["a` is 7 bytes, then two-byte characters: the cap falls inside one.
    assert_eq!(mac.text.len(), 255);
    assert_eq!(mac.text.chars().count(), 7 + 124);
}

#[test]
fn parse_rust_file_keeps_path_and_language() {
    let record = parse_rust_file("src/lib.rs", "pub fn run() {}\n");
    assert_eq!(record.path, "src/lib.rs");
    assert_eq!(record.language, "rust");
    assert_eq!(record.exports, vec!["run".to_string()]);
}
