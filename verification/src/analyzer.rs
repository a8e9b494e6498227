//! Parsing source text into a [`SyntaxNode`] tree and scoring it. The parse
//! itself is done by the tree-sitter library with the Rust grammar; everything
//! after the parse is verified against the tree that came back.

use vstd::prelude::*;
use crate::tree::{SyntaxNode, cap64, complexity, complexity_of};

verus! {

/// tree_sitter's parser type, declared so a field can hold one.
#[verifier::external_type_specification]
#[verifier::external_body]
pub struct ExParser(tree_sitter::Parser);

/// The file could not be parsed into a syntax tree at all.
#[derive(Clone, Copy, Debug, PartialEq, Eq)]
pub struct ParseFailure;

/// A parser for the one target language, ready to turn source text into a
/// syntax tree and score it.
pub struct CodeAnalyzer {
    parser: tree_sitter::Parser,
}

/// The syntax tree that the target language's grammar gives to `source`, or
/// `None` where the parser can produce no tree at all. The grammar is fixed,
/// so the tree depends on the text alone.
pub uninterp spec fn parsed_tree(source: Seq<char>) -> Option<SyntaxNode>;

impl CodeAnalyzer {
    /// Relies on tree_sitter::Parser::new and Parser::set_language, handed the
    /// grammar of tree_sitter_rust: set_language fails only where the grammar
    /// and the parser library disagree on their version, and None is returned.
    #[verifier::external_body]
    pub fn new() -> (r: Option<CodeAnalyzer>) {
        let mut parser = tree_sitter::Parser::new();
        match parser.set_language(&tree_sitter_rust::LANGUAGE.into()) {
            Ok(()) => Some(CodeAnalyzer { parser }),
            Err(_) => None,
        }
    }

    /// Relies on tree_sitter::Parser::parse, which returns the tree of the
    /// text under the grammar set at construction, or None where no tree can
    /// be produced; the walk after it only copies each node's kind tag and
    /// children into the library's tree, one node for one.
    #[verifier::external_body]
    fn parse_source(&mut self, source: &str) -> (r: Option<SyntaxNode>)
        ensures
            r == parsed_tree(source@),
    {
        let tree = self.parser.parse(source, None)?;
        let mut cursor = tree.walk();
        let mut stack: Vec<SyntaxNode> = Vec::new();
        loop {
            stack.push(SyntaxNode { kind: cursor.node().kind().to_string(), children: Vec::new() });
            if cursor.goto_first_child() { continue; }
            loop {
                let done = stack.pop().unwrap();
                match stack.last_mut() {
                    Some(parent) => parent.children.push(done),
                    None => return Some(done),
                }
                if cursor.goto_next_sibling() { break; } else { cursor.goto_parent(); }
            }
        }
    }

    /// Parse `source` and return its depth-weighted complexity; the score of
    /// an empty or construct-free file is zero. `Err(ParseFailure)` comes
    /// exactly where no syntax tree can be produced.
    pub fn score(&mut self, source: &str) -> (r: Result<u64, ParseFailure>)
        ensures
            match parsed_tree(source@) {
                Some(t) => r == Ok::<u64, ParseFailure>(cap64(complexity(t, 0)) as u64),
                None => r == Err::<u64, ParseFailure>(ParseFailure),
            },
    {
        match self.parse_source(source) {
            Some(tree) => Ok(complexity_of(&tree)),
            None => Err(ParseFailure),
        }
    }
}

} // verus!
