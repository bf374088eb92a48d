use crate::position::Position;
use vstd::prelude::*;

verus! {

/// The kind of an error.
#[derive(Clone, Copy, PartialEq, Eq, Hash, Debug, Structural)]
pub enum ErrorKind {
    /// The input is not a valid document.
    Syntax,
    /// The document is well formed, but a value in it is not what was asked for.
    Semantic,
}

/// What went wrong.
#[derive(Clone, PartialEq, Eq, Debug)]
pub enum ErrorCode {
    /// A key was not followed by `=` on its line.
    ExpectedEq,
    /// A key or a value is not valid UTF-8.
    InvalidUtf8,
    /// The builder of the value refused what it was given.
    Message(String),
    /// A value is not a boolean.
    InvalidBool,
    /// A value is not an integer of the requested type.
    InvalidInt,
    /// A value is not a floating-point number.
    InvalidFloat,
    /// A value is not a single character.
    InvalidChar,
}

impl ErrorCode {
    /// Structural failures are syntax errors; failed conversions and
    /// messages of the builder are semantic errors.
    pub open spec fn spec_kind(&self) -> ErrorKind {
        match self {
            ErrorCode::ExpectedEq | ErrorCode::InvalidUtf8 => ErrorKind::Syntax,
            _ => ErrorKind::Semantic,
        }
    }

    /// The kind this code belongs to.
    #[verifier::when_used_as_spec(spec_kind)]
    #[must_use]
    pub fn kind(&self) -> (r: ErrorKind)
        ensures
            r == self.spec_kind(),
    {
        match self {
            ErrorCode::ExpectedEq => ErrorKind::Syntax,
            ErrorCode::InvalidUtf8 => ErrorKind::Syntax,
            ErrorCode::Message(_) => ErrorKind::Semantic,
            ErrorCode::InvalidBool => ErrorKind::Semantic,
            ErrorCode::InvalidInt => ErrorKind::Semantic,
            ErrorCode::InvalidFloat => ErrorKind::Semantic,
            ErrorCode::InvalidChar => ErrorKind::Semantic,
        }
    }

    /// The words that describe this code.
    pub open spec fn spec_description(&self) -> Seq<char> {
        match self {
            ErrorCode::ExpectedEq => "expected equal sign"@,
            ErrorCode::InvalidUtf8 => "invalid UTF-8"@,
            ErrorCode::Message(message) => message@,
            ErrorCode::InvalidBool => "invalid bool"@,
            ErrorCode::InvalidInt => "invalid int"@,
            ErrorCode::InvalidFloat => "invalid float"@,
            ErrorCode::InvalidChar => "invalid char"@,
        }
    }

    /// A short description of this code; for a message, the message itself.
    #[must_use]
    pub fn description(&self) -> (r: &str)
        ensures
            r@ == self.spec_description(),
    {
        match self {
            ErrorCode::ExpectedEq => "expected equal sign",
            ErrorCode::InvalidUtf8 => "invalid UTF-8",
            ErrorCode::Message(message) => message.as_str(),
            ErrorCode::InvalidBool => "invalid bool",
            ErrorCode::InvalidInt => "invalid int",
            ErrorCode::InvalidFloat => "invalid float",
            ErrorCode::InvalidChar => "invalid char",
        }
    }
}

/// An error of decoding: what went wrong, and where in the document.
#[derive(Clone, PartialEq, Eq, Debug)]
pub struct Error {
    code: ErrorCode,
    position: Position,
}

impl Error {
    /// What went wrong.
    pub closed spec fn spec_code(&self) -> ErrorCode {
        self.code
    }

    /// Where it went wrong.
    pub closed spec fn spec_position(&self) -> Position {
        self.position
    }

    /// Whether this is the error with the given code at the given position.
    pub open spec fn is_exactly(&self, code: ErrorCode, position: Position) -> bool {
        self.spec_code() == code && self.spec_position() == position
    }

    /// An error with the given code at the given position.
    #[must_use]
    pub fn new(code: ErrorCode, position: Position) -> (r: Self)
        ensures
            r.spec_code() == code,
            r.spec_position() == position,
    {
        Error { code, position }
    }

    /// An error that carries a message of the builder of the value, and no
    /// position yet.
    #[must_use]
    pub fn custom(message: String) -> (r: Self)
        ensures
            r.spec_code() == ErrorCode::Message(message),
            r.spec_position() == Position::unset(),
    {
        Error { code: ErrorCode::Message(message), position: Position::default() }
    }

    /// The same error at another position.
    #[must_use]
    pub fn with_position(self, position: Position) -> (r: Self)
        ensures
            r.spec_code() == self.spec_code(),
            r.spec_position() == position,
    {
        let mut moved = self;
        moved.position = position;
        moved
    }

    /// What went wrong.
    #[must_use]
    pub fn code(&self) -> (r: &ErrorCode)
        ensures
            *r == self.spec_code(),
    {
        &self.code
    }

    /// A short description of what went wrong; for a message of the
    /// builder, the message itself.
    #[must_use]
    pub fn description(&self) -> (r: &str)
        ensures
            r@ == self.spec_code().spec_description(),
    {
        self.code.description()
    }

    /// The kind of the error.
    #[must_use]
    pub fn kind(&self) -> (r: ErrorKind)
        ensures
            r == self.spec_code().spec_kind(),
    {
        self.code.kind()
    }

    /// Where the error occurred.
    #[verifier::when_used_as_spec(spec_position)]
    #[must_use]
    pub fn position(&self) -> (r: Position)
        ensures
            r == self.spec_position(),
    {
        self.position
    }

    /// The line at which the error occurred.
    #[must_use]
    pub fn line(&self) -> (r: usize)
        ensures
            r == self.spec_position().line,
    {
        self.position.line
    }

    /// The column at which the error occurred.
    #[must_use]
    pub fn column(&self) -> (r: usize)
        ensures
            r == self.spec_position().column,
    {
        self.position.column
    }
}

} // verus!
