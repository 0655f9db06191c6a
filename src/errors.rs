use vstd::prelude::*;

verus! {

/// Why a line could not be assembled.
#[derive(Debug, Clone, Copy, PartialEq, Eq, Structural)]
pub enum AsmError {
    /// A decimal literal that is empty, holds a non-digit or exceeds `u16`.
    BadNumber,
    /// A character after `0х` that is not one of `0`-`9`, `А`-`Е`.
    BadHexDigit(char),
    /// A string directive without two `"` characters.
    MissingQuote,
    /// A register token that is not `П` followed by a number from 0 to 30.
    BadRegister,
    /// A line whose first word is no known mnemonic or directive.
    UnknownMnemonic,
    /// A `КОЛИ_` prefix with an unknown condition.
    UnknownCondition,
    /// A reference to a label that no line defines.
    UndefinedLabel,
    /// A label defined a second time.
    DuplicateLabel,
    /// An instruction or directive with fewer operands than it needs.
    MissingOperand,
    /// A file-inclusion directive whose file was not supplied.
    MissingInclude,
    /// The section would grow past the largest supported size.
    TooLarge,
}

/// An error and the index of the line that caused it.
#[derive(Debug, Clone, Copy, PartialEq, Eq, Structural)]
pub struct LineFault {
    pub line: usize,
    pub error: AsmError,
}

/// The first error of an assembly: the index of its line, the error, and the
/// offending item (the undefined label, the unknown word, or else the line).
#[derive(Debug, Clone, PartialEq, Eq)]
pub struct Diagnostic {
    pub line: usize,
    pub error: AsmError,
    pub item: String,
}

} // verus!
