use vstd::prelude::*;

verus! {

/// What went wrong while scanning.
#[derive(Clone, Copy, Debug, PartialEq, Eq, Structural)]
pub enum LoxErrorKind {
    /// End of input was reached before the closing `"` of a string literal.
    UnterminatedString,
    /// An integer run followed by a `.` that is not followed by a digit.
    MalformedNumber,
    /// A character that starts no token.
    UnexpectedCharacter(char),
}

/// A lexical error, tagged with the line that it is reported on.
#[derive(Clone, Copy, Debug, PartialEq, Eq, Structural)]
pub struct LoxError {
    pub kind: LoxErrorKind,
    pub lineno: u32,
}

/// The human-readable description of an error of `kind`.
pub open spec fn message_of(kind: LoxErrorKind) -> Seq<char> {
    match kind {
        LoxErrorKind::UnterminatedString => "Unterminated string."@,
        LoxErrorKind::MalformedNumber => "Malformed number: a '.' must be followed by a digit."@,
        LoxErrorKind::UnexpectedCharacter(c) => "Unexpected character: "@.push(c),
    }
}

impl LoxError {
    /// What went wrong, in words; the line is in `lineno`.
    pub fn message(&self) -> (r: String)
        ensures
            r@ == message_of(self.kind),
    {
        match self.kind {
            LoxErrorKind::UnterminatedString => "Unterminated string.".to_owned(),
            LoxErrorKind::MalformedNumber => "Malformed number: a '.' must be followed by a digit.".to_owned(),
            LoxErrorKind::UnexpectedCharacter(c) => {
                let mut r = "Unexpected character: ".to_owned();
                r.push(c);
                r
            },
        }
    }
}

} // verus!
