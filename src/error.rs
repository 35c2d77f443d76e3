//! Errors of the writer and the reader.
use crate::ser::{push_nat, push_str, string_of};
use crate::text::nat_text;
use vstd::prelude::*;

verus! {

/// Why an operation failed.
#[derive(Debug, PartialEq, Eq)]
pub enum ErrorCode {
    KeyMustBeAString,
    FloatMustBeFinite,
    NumberOutOfRange,
    /// A failure of the byte sink or source, or a message from outside the codec.
    Io(String),
    EofWhileParsing,
    UnexpectedToken,
    InvalidEscape,
    InvalidNumber,
    UnterminatedString,
    TrailingCharacters,
}

/// An error with the 1-based position it was found at; line 0 means that no
/// position is known.
#[derive(Debug, PartialEq, Eq)]
pub struct Error {
    pub code: ErrorCode,
    pub line: usize,
    pub column: usize,
}

/// The words that describe an error code.
pub open spec fn code_text(c: ErrorCode) -> Seq<char> {
    match c {
        ErrorCode::KeyMustBeAString => "key must be a string"@,
        ErrorCode::FloatMustBeFinite => "float must be finite"@,
        ErrorCode::NumberOutOfRange => "number out of range"@,
        ErrorCode::Io(m) => m@,
        ErrorCode::EofWhileParsing => "EOF while parsing a value"@,
        ErrorCode::UnexpectedToken => "unexpected token"@,
        ErrorCode::InvalidEscape => "invalid escape"@,
        ErrorCode::InvalidNumber => "invalid number"@,
        ErrorCode::UnterminatedString => "unterminated string"@,
        ErrorCode::TrailingCharacters => "trailing characters"@,
    }
}

/// The message of an error: its code's words, then its position where one is
/// known.
pub open spec fn message_text(e: Error) -> Seq<char> {
    if e.line == 0 {
        code_text(e.code)
    } else {
        code_text(e.code) + " at line "@ + nat_text(e.line as nat) + " column "@ + nat_text(
            e.column as nat,
        )
    }
}

fn push_code(out: &mut Vec<char>, c: &ErrorCode)
    ensures
        final(out)@ == old(out)@ + code_text(*c),
{
    match c {
        ErrorCode::KeyMustBeAString => push_str(out, "key must be a string"),
        ErrorCode::FloatMustBeFinite => push_str(out, "float must be finite"),
        ErrorCode::NumberOutOfRange => push_str(out, "number out of range"),
        ErrorCode::Io(m) => push_str(out, m.as_str()),
        ErrorCode::EofWhileParsing => push_str(out, "EOF while parsing a value"),
        ErrorCode::UnexpectedToken => push_str(out, "unexpected token"),
        ErrorCode::InvalidEscape => push_str(out, "invalid escape"),
        ErrorCode::InvalidNumber => push_str(out, "invalid number"),
        ErrorCode::UnterminatedString => push_str(out, "unterminated string"),
        ErrorCode::TrailingCharacters => push_str(out, "trailing characters"),
    }
}

impl Error {
    /// The human-readable message, with `at line L column C` where the
    /// position is known.
    pub fn message(&self) -> (r: String)
        ensures
            r@ == message_text(*self),
    {
        let mut out: Vec<char> = Vec::new();
        push_code(&mut out, &self.code);
        if self.line != 0 {
            push_str(&mut out, " at line ");
            push_nat(&mut out, self.line as u64);
            push_str(&mut out, " column ");
            push_nat(&mut out, self.column as u64);
        }
        assert(out@ =~= message_text(*self));
        string_of(&out)
    }

    /// An error of the byte sink or source, without a position.
    pub fn io(message: String) -> (r: Error)
        ensures
            r.code == ErrorCode::Io(message),
            r.line == 0,
            r.column == 0,
    {
        Error { code: ErrorCode::Io(message), line: 0, column: 0 }
    }

    /// A syntax error found at `line` and `column`.
    pub fn syntax(code: ErrorCode, line: usize, column: usize) -> (r: Error)
        ensures
            r.code == code,
            r.line == line,
            r.column == column,
    {
        Error { code, line, column }
    }

    /// An error that carries a message from outside the codec.
    pub fn custom(message: String) -> (r: Error)
        ensures
            r.code == ErrorCode::Io(message),
            r.line == 0,
            r.column == 0,
    {
        Error::io(message)
    }
}

} // verus!
