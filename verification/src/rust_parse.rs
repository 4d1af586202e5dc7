//! Parsing Rust sources with tree-sitter into the library's syntax tree, and
//! extracting the features of a Rust file from its content.
use vstd::prelude::*;
use vstd::string::StringSliceAdditionalSpecFns;
use crate::feature_record::FeatureRecord;
use crate::lang_rust::{extract_rust_features, extracted_features};
use crate::syntax::SyntaxNode;

verus! {

#[verifier::external_type_specification]
#[verifier::external_body]
pub struct ExTreeSitterNode<'tree>(tree_sitter::Node<'tree>);

/// The syntax tree that tree-sitter, with the bundled Rust grammar, builds
/// for a source text.
pub uninterp spec fn rust_syntax_tree(source: Seq<char>) -> SyntaxNode;

/// Copies a tree-sitter node and its descendants, one for one, into a
/// `SyntaxNode`: kind, byte span, start row and column, children in order
/// (`Node::kind`, `start_byte`, `end_byte`, `start_position`, `child_count`,
/// `child`). Nothing is claimed of the copy here; `tree_sitter_parse_rust`
/// names the whole parse.
#[verifier::external_body]
fn copy_syntax_tree(node: tree_sitter::Node) -> SyntaxNode {
    let mut children = Vec::new();
    for i in 0..node.child_count() {
        if let Some(child) = node.child(i) {
            children.push(copy_syntax_tree(child));
        }
    }
    SyntaxNode {
        kind: node.kind().to_string(),
        start_byte: node.start_byte(),
        end_byte: node.end_byte(),
        start_row: node.start_position().row,
        start_col: node.start_position().column,
        children,
    }
}

/// Calls `tree_sitter::Parser::new`, `set_language` with
/// `tree_sitter_rust::language()` and `parse(source, None)`, and copies the
/// root of the tree. Claimed: the result is a function of the source text
/// alone. The bundled grammar's ABI version is one this tree-sitter accepts,
/// so `set_language` succeeds, and `parse` gives a tree whenever a language
/// is set and no timeout or cancellation flag is configured.
#[verifier::external_body]
fn tree_sitter_parse_rust(source: &str) -> (root: SyntaxNode)
    ensures
        root == rust_syntax_tree(source@),
{
    let mut parser = tree_sitter::Parser::new();
    parser.set_language(&tree_sitter_rust::language()).expect("bundled Rust grammar is compatible");
    let tree = parser.parse(source, None).expect("a parser with a language yields a tree");
    copy_syntax_tree(tree.root_node())
}

/// Parses a Rust source file and extracts its features from the syntax tree
/// tree-sitter builds for its content.
pub fn parse_rust_file(path: &str, content: &str) -> (r: FeatureRecord)
    ensures
        extracted_features(r, path@, rust_syntax_tree(content@), content.spec_bytes()),
{
    let root = tree_sitter_parse_rust(content);
    extract_rust_features(path, &root, content.as_bytes())
}

} // verus!
