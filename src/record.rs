//! Attempts read from records: an answer string and a decimal score.
use vstd::prelude::*;

use crate::answer::{Answer, QuizError};
use crate::attempt::{parse_attempt, QuizAttempt};

verus! {

/// A decimal digit.
pub open spec fn is_digit(c: char) -> bool {
    '0' <= c <= '9'
}

/// The value of a decimal digit.
pub open spec fn digit_value(c: char) -> int {
    (c as u32) - ('0' as u32)
}

/// The value of a string of decimal digits.
pub open spec fn digits_value(s: Seq<char>) -> int
    decreases s.len(),
{
    if s.len() == 0 {
        0
    } else {
        digits_value(s.drop_last()) * 10 + digit_value(s.last())
    }
}

/// The digits of a number written with an optional leading sign.
pub open spec fn unsigned_part(s: Seq<char>) -> Seq<char> {
    if s.len() > 0 && (s[0] == '-' || s[0] == '+') {
        s.drop_first()
    } else {
        s
    }
}

/// The `i32` that `s` writes in decimal, with an optional `+` or `-` in front,
/// if `s` writes one.
pub open spec fn score_of(s: Seq<char>) -> Option<int> {
    let digits = unsigned_part(s);
    let magnitude = digits_value(digits);
    let v = if s.len() > 0 && s[0] == '-' {
        -magnitude
    } else {
        magnitude
    };
    if digits.len() == 0 || !(forall|i: int| 0 <= i < digits.len() ==> is_digit(#[trigger] digits[i])) {
        None
    } else if i32::MIN <= v <= i32::MAX {
        Some(v)
    } else {
        None
    }
}

proof fn lemma_digits_value_grows(s: Seq<char>, i: int)
    requires
        0 <= i <= s.len(),
        forall|j: int| 0 <= j < s.len() ==> is_digit(#[trigger] s[j]),
    ensures
        0 <= digits_value(s.take(i)) <= digits_value(s),
    decreases s.len(),
{
    if s.len() > 0 {
        let r = s.drop_last();
        assert forall|j: int| 0 <= j < r.len() implies is_digit(#[trigger] r[j]) by {
            assert(r[j] == s[j]);
        }
        if i == s.len() {
            assert(s.take(i) =~= s);
            lemma_digits_value_grows(r, r.len() as int);
            assert(r.take(r.len() as int) =~= r);
        } else {
            lemma_digits_value_grows(r, i);
            assert(r.take(i) =~= s.take(i));
            lemma_digits_value_grows(r, r.len() as int);
            assert(r.take(r.len() as int) =~= r);
            assert(is_digit(s.last()));
        }
    }
}

/// Reads a score written in decimal.
fn parse_score(s: &str) -> (r: Option<i32>)
    ensures
        match score_of(s@) {
            Some(v) => r == Some(v as i32),
            None => r is None,
        },
{
    let len = s.unicode_len();
    let mut start: usize = 0;
    let mut negative = false;
    if len > 0 {
        let c = s.get_char(0);
        if c == '-' {
            negative = true;
            start = 1;
        } else if c == '+' {
            start = 1;
        }
    }
    let ghost digits = unsigned_part(s@);
    assert(digits =~= s@.subrange(start as int, len as int));
    if start == len {
        return None;
    }
    let mut value: i64 = 0;
    let mut i: usize = start;
    while i < len
        invariant
            len == s@.len(),
            start <= i <= len,
            start < len,
            digits == s@.subrange(start as int, len as int),
            digits == unsigned_part(s@),
            forall|j: int| 0 <= j < i - start ==> is_digit(#[trigger] digits[j]),
            value == digits_value(digits.take(i - start)),
            0 <= value <= 0x8000_0000,
        decreases len - i,
    {
        let c = s.get_char(i);
        assert(digits[i - start] == c);
        if c < '0' || c > '9' {
            assert(!is_digit(digits[i - start]));
            assert(!(forall|j: int| 0 <= j < digits.len() ==> is_digit(#[trigger] digits[j])));
            return None;
        }
        proof {
            let next = digits.take(i - start + 1);
            assert(next.drop_last() =~= digits.take(i - start));
            assert(next.last() == c);
            assert(digits_value(next) == value * 10 + digit_value(c));
        }
        value = value * 10 + ((c as u32) - ('0' as u32)) as i64;
        i = i + 1;
        if value > 0x8000_0000 {
            proof {
                if forall|j: int| 0 <= j < digits.len() ==> is_digit(#[trigger] digits[j]) {
                    lemma_digits_value_grows(digits, i - start);
                    assert(digits_value(digits) > 0x8000_0000);
                }
            }
            return None;
        }
    }
    assert(digits.take(len - start) =~= digits);
    if negative {
        if value > 0x8000_0000 {
            None
        } else {
            Some((-value) as i32)
        }
    } else if value > 0x7fff_ffff {
        None
    } else {
        Some(value as i32)
    }
}

impl QuizAttempt {
    /// Reads an attempt from the fields of a record: its answer string, then
    /// its score in decimal; fields after these are ignored.
    pub fn from_list(list: &[&str]) -> (r: Result<QuizAttempt, QuizError>)
        ensures
            list@.len() < 2 ==> r == Err::<QuizAttempt, QuizError>(QuizError::MalformedRecord),
            list@.len() >= 2 ==> match score_of(list@[1]@) {
                None => r == Err::<QuizAttempt, QuizError>(QuizError::MalformedRecord),
                Some(v) => match r {
                    Ok(att) => {
                        &&& parse_attempt(list@[0]@, v) == Ok::<Seq<Answer>, QuizError>(
                            att.answers@,
                        )
                        &&& att.score == v
                        &&& att.wf()
                    },
                    Err(e) => parse_attempt(list@[0]@, v) == Err::<Seq<Answer>, QuizError>(e),
                },
            },
    {
        if list.len() < 2 {
            return Err(QuizError::MalformedRecord);
        }
        match parse_score(list[1]) {
            None => Err(QuizError::MalformedRecord),
            Some(score) => QuizAttempt::from_string(list[0], score),
        }
    }
}

} // verus!
