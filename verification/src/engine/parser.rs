//! Syntax trees.

use crate::bytes::slice_bytes;
use crate::finding::Language;
use vstd::prelude::*;
use vstd::utf8::{encode_utf8, is_char_boundary};

verus! {

/// A grammar that texts can be parsed with.
#[derive(Debug, Clone, Copy, PartialEq, Eq, Structural)]
pub enum Grammar {
    Bash,
    C,
    CSharp,
    Go,
    Java,
    JavaScript,
    Kotlin,
    Php,
    Python,
    Ruby,
    Rust,
    Swift,
    Tsx,
    TypeScript,
}

/// The grammar for a language. Configuration files, container files and manifests are read line by
/// line and take the shell's grammar.
pub open spec fn grammar_for(language: Language) -> Grammar {
    match language {
        Language::JavaScript => Grammar::JavaScript,
        Language::TypeScript => Grammar::TypeScript,
        Language::Tsx => Grammar::Tsx,
        Language::Python => Grammar::Python,
        Language::Go => Grammar::Go,
        Language::Ruby => Grammar::Ruby,
        Language::Java => Grammar::Java,
        Language::Php => Grammar::Php,
        Language::Rust => Grammar::Rust,
        Language::CSharp => Grammar::CSharp,
        Language::Swift => Grammar::Swift,
        Language::Kotlin => Grammar::Kotlin,
        Language::C => Grammar::C,
        Language::Bash => Grammar::Bash,
        Language::NginxConf => Grammar::Bash,
        Language::ApacheConf => Grammar::Bash,
        Language::HAProxyConf => Grammar::Bash,
        Language::Dockerfile => Grammar::Bash,
        Language::Manifest => Grammar::Bash,
    }
}

/// The grammar for a language.
pub fn grammar(language: Language) -> (r: Grammar)
    ensures
        r == grammar_for(language),
{
    match language {
        Language::JavaScript => Grammar::JavaScript,
        Language::TypeScript => Grammar::TypeScript,
        Language::Tsx => Grammar::Tsx,
        Language::Python => Grammar::Python,
        Language::Go => Grammar::Go,
        Language::Ruby => Grammar::Ruby,
        Language::Java => Grammar::Java,
        Language::Php => Grammar::Php,
        Language::Rust => Grammar::Rust,
        Language::CSharp => Grammar::CSharp,
        Language::Swift => Grammar::Swift,
        Language::Kotlin => Grammar::Kotlin,
        Language::C => Grammar::C,
        Language::Bash => Grammar::Bash,
        Language::NginxConf => Grammar::Bash,
        Language::ApacheConf => Grammar::Bash,
        Language::HAProxyConf => Grammar::Bash,
        Language::Dockerfile => Grammar::Bash,
        Language::Manifest => Grammar::Bash,
    }
}

/// A syntax tree of `tree_sitter`, which nothing here looks into.
#[verifier::external_type_specification]
#[verifier::external_body]
pub struct ExTree(tree_sitter::Tree);

/// The tree that `tree_sitter::Parser::parse` makes of a text with a grammar, if it makes one.
pub uninterp spec fn syntax_tree(source: Seq<char>, grammar: Grammar) -> Option<tree_sitter::Tree>;

/// Parses a text with `tree_sitter::Parser::parse`, after `Parser::set_language` with the grammar's
/// own `LANGUAGE`. What the tree holds is left to that library: only that it is a function of the
/// text and the grammar is claimed.
#[verifier::external_body]
fn parse_with(source: &str, grammar: Grammar) -> (r: Option<tree_sitter::Tree>)
    ensures
        r == syntax_tree(source@, grammar),
{
    let language = match grammar {
        Grammar::Bash => tree_sitter_bash::LANGUAGE, Grammar::C => tree_sitter_c::LANGUAGE,
        Grammar::CSharp => tree_sitter_c_sharp::LANGUAGE, Grammar::Go => tree_sitter_go::LANGUAGE,
        Grammar::Java => tree_sitter_java::LANGUAGE, Grammar::Php => tree_sitter_php::LANGUAGE_PHP,
        Grammar::JavaScript => tree_sitter_javascript::LANGUAGE,
        Grammar::Kotlin => tree_sitter_kotlin_sg::LANGUAGE,
        Grammar::Python => tree_sitter_python::LANGUAGE, Grammar::Ruby => tree_sitter_ruby::LANGUAGE,
        Grammar::Rust => tree_sitter_rust::LANGUAGE, Grammar::Swift => tree_sitter_swift::LANGUAGE,
        Grammar::Tsx => tree_sitter_typescript::LANGUAGE_TSX,
        Grammar::TypeScript => tree_sitter_typescript::LANGUAGE_TYPESCRIPT,
    };
    let mut parser = tree_sitter::Parser::new();
    parser.set_language(&language.into()).ok()?;
    parser.parse(source, None)
}

/// The syntax tree of a text in the given language.
pub fn parse_file(source: &str, language: Language) -> (r: Option<tree_sitter::Tree>)
    ensures
        r == syntax_tree(source@, grammar_for(language)),
{
    parse_with(source, grammar(language))
}

/// The bytes of the smallest node at a byte of a tree, by
/// `tree_sitter::Node::descendant_for_byte_range` on its root; nothing where there is no such node.
pub uninterp spec fn node_range(tree: tree_sitter::Tree, byte: usize) -> Option<(usize, usize)>;

/// Finds the smallest node at a byte with `tree_sitter::Node::descendant_for_byte_range` on the root
/// of a tree. Only that its range is a function of the tree and the byte is claimed.
#[verifier::external_body]
fn node_at(tree: &tree_sitter::Tree, byte: usize) -> (r: Option<(usize, usize)>)
    ensures
        r == node_range(*tree, byte),
{
    let node = tree.root_node().descendant_for_byte_range(byte, byte)?;
    Some((node.start_byte(), node.end_byte()))
}

/// The bytes of the smallest syntax node at a byte.
pub fn find_node_at_byte(tree: &tree_sitter::Tree, byte: usize) -> (r: Option<(usize, usize)>)
    ensures
        r == node_range(*tree, byte),
{
    node_at(tree, byte)
}

/// The text of a node with the given range, where that is a range of the text.
pub fn node_text(source: &str, start_byte: usize, end_byte: usize) -> (r: Option<String>)
    ensures
        ({
            let bytes = encode_utf8(source@);
            if start_byte <= end_byte <= bytes.len() && is_char_boundary(bytes, start_byte as int)
                && is_char_boundary(bytes, end_byte as int) {
                r matches Some(s) && encode_utf8(s@) == bytes.subrange(
                    start_byte as int,
                    end_byte as int,
                )
            } else {
                r is None
            }
        }),
{
    let n: usize = source.as_bytes().len();
    if start_byte <= end_byte && end_byte <= n && source.is_char_boundary(start_byte)
        && source.is_char_boundary(end_byte) {
        Some(slice_bytes(source, start_byte, end_byte))
    } else {
        None
    }
}

} // verus!
