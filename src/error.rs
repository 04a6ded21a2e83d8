use vstd::prelude::*;
use crate::program::Opcode;

verus! {

/// The kinds of runtime value, as named in error messages.
#[derive(Clone, Copy, Debug, PartialEq, Eq, Structural)]
pub enum Kind {
    Null,
    Boolean,
    Integer,
    String,
    List,
    Block,
}

/// Why source text could not be compiled.
#[derive(Clone, Copy, Debug, PartialEq, Eq, Structural)]
pub enum ParseError {
    /// A byte that starts no token.
    UnexpectedByte(u8),
    /// A string literal without its closing quote.
    UnterminatedString,
    /// The source ended where an expression was expected.
    MissingExpression,
    /// An upper-case word that names no function.
    UnknownFunction(u8),
    /// A `)` without its `(`, or a `(` without its `)`.
    UnbalancedParens,
    /// An integer literal too large for the configured width.
    IntegerLiteralTooLarge,
    /// The target of `=` is not a variable.
    AssignToNonVariable,
    /// A variable name longer than 127 bytes.
    VariableNameTooLong,
    /// More than 65535 distinct variables.
    TooManyVariables,
    /// Tokens after the single expression of a program.
    TrailingTokens,
    /// A string literal with a byte outside the configured encoding.
    IllegalByte(u8),
    /// More instructions or constants than an instruction word can address.
    ProgramTooLarge,
}

/// Why a value with the right kind was still refused.
#[derive(Clone, Copy, Debug, PartialEq, Eq, Structural)]
pub enum Domain {
    EmptyHead,
    EmptyTail,
    EmptyAscii,
    NegativeLength,
    NegativeStart,
    NegativeRepeat,
    NegativeModulusBase,
    NegativeExponent,
    QuitStatus,
    NotAChar,
    NegativeToList,
}

/// Why a string could not be made.
#[derive(Clone, Copy, Debug, PartialEq, Eq, Structural)]
pub enum NewTextError {
    /// A byte outside the configured encoding.
    IllegalByte(u8),
    /// Longer than the configured cap.
    TooLong,
}

/// Every way parsing or running a program can fail.
#[derive(Clone, Copy, Debug, PartialEq, Eq, Structural)]
pub enum Error {
    Parse(ParseError),
    /// The variable with this index was read before it was assigned.
    UndefinedVariable(usize),
    /// The operator cannot take a value of this kind.
    TypeError { kind: Kind, op: Opcode },
    /// The coercion between these kinds is not defined.
    Conversion { from: Kind, to: Kind },
    /// `GET` or `SET` reached past the end of its container.
    IndexOutOfBounds { len: usize, index: usize },
    Domain(Domain),
    IntegerOverflow,
    DivisionByZero,
    Text(NewTextError),
    /// A list grew beyond the configured cap.
    ListTooLarge,
    /// Reading input or writing output failed.
    Io,
    /// `QUIT` was run with this status.
    Quit(i32),
    /// The instructions do not match what the compiler emits: the stack ran dry, or a jump or
    /// a block pointed outside the code.
    MalformedProgram,
}

/// An error raised while running, with the entry points of the blocks being run, innermost last.
#[derive(Clone, Debug)]
pub struct RuntimeError {
    pub err: Error,
    pub callstack: Vec<usize>,
}

} // verus!
