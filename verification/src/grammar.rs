use vstd::prelude::*;

use crate::errors::Error;
use tree_sitter::{Language, LanguageError, Parser, Tree};

verus! {

#[verifier::external_type_specification]
#[verifier::external_body]
pub struct ExLanguage(Language);

#[verifier::external_type_specification]
#[verifier::external_body]
pub struct ExParser(Parser);

#[verifier::external_type_specification]
#[verifier::external_body]
pub struct ExTree(Tree);

#[verifier::external_type_specification]
#[verifier::external_body]
pub struct ExLanguageError(LanguageError);

/// A parser paired with the fact that a grammar has been assigned to it.
/// The field is private and the only constructor is `create_parser`, which
/// records `true` exactly when the assignment call succeeded.
pub struct GrammarParser {
    parser: Parser,
    assigned: Ghost<bool>,
}

impl GrammarParser {
    /// Whether a grammar has been assigned to this parser.
    pub closed spec fn grammar_assigned(&self) -> bool {
        self.assigned@
    }
}

/// Relies on tree_sitter::Parser::new: a fresh parser with no language set.
#[verifier::external_body]
fn parser_new() -> Parser {
    Parser::new()
}

/// Whether the linked parser runtime accepts this grammar: its ABI version
/// lies in the supported range and it is parseable. Both are reads of the
/// grammar value alone.
pub uninterp spec fn language_ok(l: Language) -> bool;

/// Relies on tree_sitter::Parser::set_language: assigns the grammar to the
/// parser, succeeding exactly when the grammar's ABI version is compatible
/// and the grammar is parseable — a function of the grammar value alone,
/// here named `language_ok`.
#[verifier::external_body]
fn parser_set_language(parser: &mut Parser, language: &Language) -> (r: Result<(), LanguageError>)
    ensures
        r is Ok <==> language_ok(*language),
{
    parser.set_language(language)
}

/// Relies on tree_sitter::Parser::parse: in this build (no wasm support, no
/// cancellation options) it returns `None` only when the parser has no
/// language assigned; malformed input still yields a tree whose error nodes
/// record the damage. Parsing does not unassign the language.
#[verifier::external_body]
fn parser_parse(gp: &mut GrammarParser, source_code: &str) -> (r: Option<Tree>)
    ensures
        old(gp).grammar_assigned() ==> r is Some,
        final(gp).grammar_assigned() == old(gp).grammar_assigned(),
{
    gp.parser.parse(source_code, None)
}

/// Builds a parser configured for `language`: succeeds, with a grammar
/// assigned to the returned parser, exactly when the runtime accepts the
/// grammar; a grammar it rejects is an incompatibility of the loaded
/// module, reported as `ModuleLoadError`.
pub fn create_parser(language: Language) -> (r: Result<GrammarParser, Error>)
    ensures
        r is Ok <==> language_ok(language),
        r matches Ok(p) ==> p.grammar_assigned(),
        r matches Err(e) ==> e == Error::ModuleLoadError,
{
    let mut parser = parser_new();
    match parser_set_language(&mut parser, &language) {
        Ok(_) => Ok(GrammarParser { parser, assigned: Ghost(true) }),
        Err(_) => Err(Error::ModuleLoadError),
    }
}

/// Parses `source_code` with the configured parser. A parser that holds a
/// grammar always produces a tree; a missing tree can only mean no grammar
/// was assigned, a parser/grammar mismatch that is fatal for the file, never
/// a recoverable input error.
pub fn gen_tree(parser: GrammarParser, source_code: &str) -> (r: Result<Tree, Error>)
    ensures
        parser.grammar_assigned() ==> r is Ok,
        r matches Err(e) ==> e == Error::ParseInternalError,
{
    let mut parser = parser;
    match parser_parse(&mut parser, source_code) {
        Some(tree) => Ok(tree),
        None => Err(Error::ParseInternalError),
    }
}

} // verus!
