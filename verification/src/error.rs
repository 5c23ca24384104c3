use vstd::prelude::*;
use vstd::string::StringExecFns;

verus! {

/// Why a construction, a decoder or a step gave up.
#[derive(Debug, Clone, Copy, PartialEq, Eq, Structural)]
pub enum InterpreterError {
    /// A character outside the four-letter alphabet.
    UnexpectedSymbol(char),
    /// A number literal that runs to the end of the sequence.
    Nat,
    /// The sequence does not go on as a pattern.
    Pattern,
    /// The sequence does not go on as a template.
    Template,
    /// A decoded pattern searches for the empty word.
    EmptySearch,
    /// The rewritten sequence would be longer than the machine can address.
    TooLong,
}

pub type InterpreterResult<T> = Result<T, InterpreterError>;

/// `format!` on a text and one character: the text, a space, and then the
/// character as it is.
#[verifier::external_body]
fn text_with_symbol(text: &str, symbol: char) -> (message: String)
    ensures
        message@ == (text@ + seq![' ']).push(symbol),
{
    format!("{} {}", text, symbol)
}

impl InterpreterError {
    /// What the error says, in words.
    pub open spec fn text(self) -> Seq<char> {
        match self {
            InterpreterError::UnexpectedSymbol(c) => ("unexpected symbol"@ + seq![' ']).push(c),
            InterpreterError::Nat => "unexpected DNA while decoding nat"@,
            InterpreterError::Pattern => "unexpected DNA while decoding pattern"@,
            InterpreterError::Template => "unexpected DNA while decoding template"@,
            InterpreterError::EmptySearch => "pattern searches for the empty word"@,
            InterpreterError::TooLong => "sequence too long"@,
        }
    }

    /// What the error says, in words.
    pub fn message(&self) -> (message: String)
        ensures
            message@ == self.text(),
    {
        match self {
            InterpreterError::UnexpectedSymbol(c) => text_with_symbol("unexpected symbol", *c),
            InterpreterError::Nat => String::from_str("unexpected DNA while decoding nat"),
            InterpreterError::Pattern => String::from_str("unexpected DNA while decoding pattern"),
            InterpreterError::Template => String::from_str(
                "unexpected DNA while decoding template",
            ),
            InterpreterError::EmptySearch => String::from_str("pattern searches for the empty word"),
            InterpreterError::TooLong => String::from_str("sequence too long"),
        }
    }
}

} // verus!
