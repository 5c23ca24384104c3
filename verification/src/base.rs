use vstd::prelude::*;
use crate::error::InterpreterError;

verus! {

/// A symbol of the four-letter alphabet.
#[derive(Debug, Clone, Copy, PartialEq, Eq, Structural)]
pub enum Base {
    I,
    C,
    F,
    P,
}

/// A short run of symbols held in one flat buffer.
pub type ShortDna = Vec<Base>;

impl Default for Base {
    fn default() -> (b: Self)
        ensures
            b == Base::I,
    {
        Base::I
    }
}

impl Base {
    /// The letter that stands for a symbol.
    pub open spec fn letter(self) -> char {
        match self {
            Base::I => 'I',
            Base::C => 'C',
            Base::F => 'F',
            Base::P => 'P',
        }
    }

    /// The symbol a letter stands for, if it stands for one.
    pub open spec fn of_letter(c: char) -> Option<Base> {
        if c == 'I' {
            Some(Base::I)
        } else if c == 'C' {
            Some(Base::C)
        } else if c == 'F' {
            Some(Base::F)
        } else if c == 'P' {
            Some(Base::P)
        } else {
            None
        }
    }

    pub fn from_char(c: char) -> (r: Result<Self, InterpreterError>)
        ensures
            r == match Base::of_letter(c) {
                Some(b) => Ok::<Base, InterpreterError>(b),
                None => Err(InterpreterError::UnexpectedSymbol(c)),
            },
    {
        if c == 'I' {
            Ok(Base::I)
        } else if c == 'C' {
            Ok(Base::C)
        } else if c == 'F' {
            Ok(Base::F)
        } else if c == 'P' {
            Ok(Base::P)
        } else {
            Err(InterpreterError::UnexpectedSymbol(c))
        }
    }

    pub fn to_char(&self) -> (c: char)
        ensures
            c == self.letter(),
    {
        match self {
            Base::I => 'I',
            Base::C => 'C',
            Base::F => 'F',
            Base::P => 'P',
        }
    }
}

/// The letters of a run of symbols, in order.
pub open spec fn letters(s: Seq<Base>) -> Seq<char> {
    s.map_values(|b: Base| b.letter())
}

} // verus!
