use vstd::prelude::*;

verus! {

/// The failure taxonomy of the pipeline. Errors are never retried: none of
/// the failure modes are transient. A failure is fatal for the file (or, for
/// `ConfigError`, for the whole run); no partial output is ever produced.
#[derive(Clone, Copy, Debug, PartialEq, Eq, Structural)]
pub enum Error {
    /// The configuration document was malformed or unreadable.
    ConfigError,
    /// The grammar module was missing, unreadable, or ABI-incompatible.
    ModuleLoadError,
    /// No exported symbol matched both the grammar marker and the language.
    SymbolNotFoundError,
    /// The module bytes were not in a recognized object-file format.
    ParseError,
    /// The parser produced no tree: a parser/grammar mismatch, not bad input.
    ParseInternalError,
    /// A source or module file could not be read.
    IoError,
}

} // verus!
