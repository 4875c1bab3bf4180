//! The answer alphabet and the errors of the library.
use vstd::prelude::*;

verus! {

/// One answer of a quiz: one of the four options, or `X`, a sentinel for a
/// position whose answer is indeterminate. A key never holds `X`.
#[derive(Clone, Copy, PartialEq, Eq, Structural, Debug)]
pub enum Answer {
    A,
    B,
    C,
    D,
    X,
}

/// Why an input was rejected.
#[derive(Clone, Copy, PartialEq, Eq, Structural, Debug)]
pub enum QuizError {
    /// A character of an answer string is not a symbol of the alphabet.
    InvalidSymbol,
    /// A score is negative or larger than the number of answers.
    ImpossibleScore,
    /// Two sequences that must share a length do not.
    LengthMismatch,
    /// No attempt was supplied.
    EmptyInput,
    /// A record does not hold an answer string and a decimal score.
    MalformedRecord,
}

/// The answer that a symbol stands for, if it is one of `A`, `B`, `C`, `D`, `X`.
pub open spec fn answer_of_symbol(c: char) -> Option<Answer> {
    if c == 'A' {
        Some(Answer::A)
    } else if c == 'B' {
        Some(Answer::B)
    } else if c == 'C' {
        Some(Answer::C)
    } else if c == 'D' {
        Some(Answer::D)
    } else if c == 'X' {
        Some(Answer::X)
    } else {
        None
    }
}

/// As `answer_of_symbol`, but a lower-case letter stands for its upper-case one.
pub open spec fn answer_of_letter(c: char) -> Option<Answer> {
    if c == 'a' {
        Some(Answer::A)
    } else if c == 'b' {
        Some(Answer::B)
    } else if c == 'c' {
        Some(Answer::C)
    } else if c == 'd' {
        Some(Answer::D)
    } else if c == 'x' {
        Some(Answer::X)
    } else {
        answer_of_symbol(c)
    }
}

/// The symbol that writes an answer.
pub open spec fn symbol_of(a: Answer) -> char {
    match a {
        Answer::A => 'A',
        Answer::B => 'B',
        Answer::C => 'C',
        Answer::D => 'D',
        Answer::X => 'X',
    }
}

/// An answer that can stand in a key: anything but the sentinel.
pub open spec fn is_option(a: Answer) -> bool {
    a != Answer::X
}

impl Answer {
    /// Reads one symbol of the alphabet; upper case only.
    pub fn from_char(c: char) -> (r: Result<Answer, QuizError>)
        ensures
            r == (match answer_of_symbol(c) {
                Some(a) => Ok(a),
                None => Err(QuizError::InvalidSymbol),
            }),
    {
        match c {
            'A' => Ok(Answer::A),
            'B' => Ok(Answer::B),
            'C' => Ok(Answer::C),
            'D' => Ok(Answer::D),
            'X' => Ok(Answer::X),
            _ => Err(QuizError::InvalidSymbol),
        }
    }

    /// Reads one symbol of the alphabet, in either case.
    pub fn from_letter(c: char) -> (r: Result<Answer, QuizError>)
        ensures
            r == (match answer_of_letter(c) {
                Some(a) => Ok(a),
                None => Err(QuizError::InvalidSymbol),
            }),
    {
        match c {
            'a' => Ok(Answer::A),
            'b' => Ok(Answer::B),
            'c' => Ok(Answer::C),
            'd' => Ok(Answer::D),
            'x' => Ok(Answer::X),
            _ => Answer::from_char(c),
        }
    }

    /// The symbol that writes this answer.
    pub fn symbol(self) -> (r: char)
        ensures
            r == symbol_of(self),
    {
        match self {
            Answer::A => 'A',
            Answer::B => 'B',
            Answer::C => 'C',
            Answer::D => 'D',
            Answer::X => 'X',
        }
    }

    /// The symbol that writes this answer, as a string of one character.
    pub fn as_str(self) -> (r: &'static str)
        ensures
            r@ == seq![symbol_of(self)],
    {
        match self {
            Answer::A => {
                proof {
                    reveal_strlit("A");
                }
                "A"
            },
            Answer::B => {
                proof {
                    reveal_strlit("B");
                }
                "B"
            },
            Answer::C => {
                proof {
                    reveal_strlit("C");
                }
                "C"
            },
            Answer::D => {
                proof {
                    reveal_strlit("D");
                }
                "D"
            },
            Answer::X => {
                proof {
                    reveal_strlit("X");
                }
                "X"
            },
        }
    }
}

} // verus!
