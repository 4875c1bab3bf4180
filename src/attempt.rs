//! Attempts, keys, and the check of a key against an attempt's score.
use vstd::prelude::*;

use crate::answer::{answer_of_letter, is_option, symbol_of, Answer, QuizError};

verus! {

/// The number of positions below `i` where `a` and `b` agree.
pub open spec fn matches_upto(a: Seq<Answer>, b: Seq<Answer>, i: int) -> nat
    decreases i,
{
    if i <= 0 {
        0
    } else {
        matches_upto(a, b, i - 1) + if a[i - 1] == b[i - 1] {
            1nat
        } else {
            0nat
        }
    }
}

/// The number of positions where `a` and `b` agree, over the length of `a`.
pub open spec fn match_count(a: Seq<Answer>, b: Seq<Answer>) -> nat {
    matches_upto(a, b, a.len() as int)
}

/// A sequence of answers that can be an answer key: it holds no sentinel.
pub open spec fn is_key(k: Seq<Answer>) -> bool {
    forall|i: int| 0 <= i < k.len() ==> is_option(#[trigger] k[i])
}

/// `key` could be the answer key of an attempt that chose `answers` and was
/// graded `score`: the lengths agree and exactly `score` positions match.
pub open spec fn consistent(answers: Seq<Answer>, score: int, key: Seq<Answer>) -> bool {
    &&& answers.len() == key.len()
    &&& match_count(answers, key) == score
}

/// Every character of `s` writes an answer, in either case.
pub open spec fn letters_valid(s: Seq<char>) -> bool {
    forall|i: int| 0 <= i < s.len() ==> (#[trigger] answer_of_letter(s[i])) is Some
}

/// The answers that the characters of `s` write.
pub open spec fn answers_of(s: Seq<char>) -> Seq<Answer> {
    Seq::new(s.len(), |i: int| answer_of_letter(s[i])->Some_0)
}

/// The answers of an attempt written as `s` and graded `score`, or why there
/// are none: the score is checked against the length first, then the symbols.
pub open spec fn parse_attempt(s: Seq<char>, score: int) -> Result<Seq<Answer>, QuizError> {
    if score < 0 || score > s.len() {
        Err(QuizError::ImpossibleScore)
    } else if !letters_valid(s) {
        Err(QuizError::InvalidSymbol)
    } else {
        Ok(answers_of(s))
    }
}

/// The symbols that write `answers`, in order.
pub open spec fn render(answers: Seq<Answer>) -> Seq<char> {
    answers.map_values(|a: Answer| symbol_of(a))
}

/// Distinct answer sequences are written differently.
pub proof fn lemma_render_injective(a: Seq<Answer>, b: Seq<Answer>)
    requires
        render(a) == render(b),
    ensures
        a == b,
{
    assert(a.len() == render(a).len());
    assert(b.len() == render(b).len());
    assert forall|i: int| 0 <= i < a.len() implies a[i] == b[i] by {
        assert(render(a)[i] == render(b)[i]);
        assert(render(a)[i] == symbol_of(a[i]));
        assert(render(b)[i] == symbol_of(b[i]));
    }
    assert(a =~= b);
}

/// A graded attempt: the answers chosen and the number of them that were right.
#[derive(Clone, Debug, PartialEq, Eq)]
pub struct QuizAttempt {
    pub answers: Vec<Answer>,
    pub score: i32,
}

/// A candidate answer key.
#[derive(Clone, Debug, PartialEq, Eq)]
pub struct AnswerKey {
    pub answers: Vec<Answer>,
}

impl QuizAttempt {
    /// The score lies between zero and the number of answers.
    pub open spec fn wf(&self) -> bool {
        0 <= self.score <= self.answers@.len()
    }

    /// `key` agrees with this attempt's answers in exactly `score` positions.
    pub open spec fn admits(&self, key: Seq<Answer>) -> bool {
        consistent(self.answers@, self.score as int, key)
    }

    /// Builds an attempt from its answers and score.
    pub fn new(answers: Vec<Answer>, score: i32) -> (r: Result<QuizAttempt, QuizError>)
        ensures
            0 <= score <= answers@.len() ==> r == Ok::<QuizAttempt, QuizError>(
                QuizAttempt { answers, score },
            ),
            !(0 <= score <= answers@.len()) ==> r == Err::<QuizAttempt, QuizError>(
                QuizError::ImpossibleScore,
            ),
    {
        if score < 0 || score as usize > answers.len() {
            Err(QuizError::ImpossibleScore)
        } else {
            Ok(QuizAttempt { answers, score })
        }
    }

    /// Reads an attempt from its answers, one symbol each (in either case), and
    /// its score.
    pub fn from_string(string: &str, score: i32) -> (r: Result<QuizAttempt, QuizError>)
        ensures
            match r {
                Ok(att) => {
                    &&& parse_attempt(string@, score as int) == Ok::<Seq<Answer>, QuizError>(
                        att.answers@,
                    )
                    &&& att.score == score
                    &&& att.wf()
                },
                Err(e) => parse_attempt(string@, score as int) == Err::<Seq<Answer>, QuizError>(e),
            },
    {
        let len = string.unicode_len();
        if score < 0 || score as usize > len {
            return Err(QuizError::ImpossibleScore);
        }
        let mut answers: Vec<Answer> = Vec::new();
        let mut i: usize = 0;
        while i < len
            invariant
                len == string@.len(),
                0 <= score <= len,
                i <= len,
                answers@.len() == i,
                forall|j: int| 0 <= j < i ==> (#[trigger] answer_of_letter(string@[j])) is Some,
                forall|j: int| 0 <= j < i ==> answers@[j] == answer_of_letter(string@[j])->Some_0,
            decreases len - i,
        {
            let c = string.get_char(i);
            match Answer::from_letter(c) {
                Ok(a) => answers.push(a),
                Err(_) => {
                    assert(answer_of_letter(string@[i as int]) is None);
                    assert(!letters_valid(string@));
                    return Err(QuizError::InvalidSymbol);
                },
            }
            i = i + 1;
        }
        assert(answers@ =~= answers_of(string@));
        Ok(QuizAttempt { answers, score })
    }

    /// Whether `key` gets exactly this attempt's score when it grades this
    /// attempt's answers; an error when the two differ in length.
    pub fn check(&self, key: &AnswerKey) -> (r: Result<bool, QuizError>)
        ensures
            self.answers@.len() != key.answers@.len() ==> r == Err::<bool, QuizError>(
                QuizError::LengthMismatch,
            ),
            self.answers@.len() == key.answers@.len() ==> r == Ok::<bool, QuizError>(
                self.admits(key.answers@),
            ),
    {
        if self.answers.len() != key.answers.len() {
            return Err(QuizError::LengthMismatch);
        }
        let n = self.answers.len();
        let mut count: usize = 0;
        let mut i: usize = 0;
        while i < n
            invariant
                n == self.answers@.len(),
                n == key.answers@.len(),
                i <= n,
                count == matches_upto(self.answers@, key.answers@, i as int),
                count <= i,
            decreases n - i,
        {
            if self.answers[i] == key.answers[i] {
                count = count + 1;
            }
            i = i + 1;
        }
        if self.score < 0 {
            Ok(false)
        } else {
            Ok(count == self.score as usize)
        }
    }
}

impl AnswerKey {
    /// A key holds no sentinel.
    pub open spec fn wf(&self) -> bool {
        is_key(self.answers@)
    }

    /// The key written with one symbol per answer.
    pub fn as_string(&self) -> (r: String)
        ensures
            r@ == render(self.answers@),
    {
        let mut s = String::new();
        let mut i: usize = 0;
        while i < self.answers.len()
            invariant
                i <= self.answers@.len(),
                s@ == render(self.answers@.take(i as int)),
            decreases self.answers@.len() - i,
        {
            s.append(self.answers[i].as_str());
            i = i + 1;
            assert(s@ =~= render(self.answers@.take(i as int)));
        }
        assert(self.answers@.take(self.answers@.len() as int) =~= self.answers@);
        s
    }

    /// Builds a key; the sentinel cannot stand in one.
    pub fn new(answers: Vec<Answer>) -> (r: Result<AnswerKey, QuizError>)
        ensures
            is_key(answers@) ==> r == Ok::<AnswerKey, QuizError>(AnswerKey { answers }),
            !is_key(answers@) ==> r == Err::<AnswerKey, QuizError>(QuizError::InvalidSymbol),
    {
        let mut i: usize = 0;
        while i < answers.len()
            invariant
                i <= answers@.len(),
                forall|j: int| 0 <= j < i ==> is_option(#[trigger] answers@[j]),
            decreases answers@.len() - i,
        {
            if answers[i] == Answer::X {
                return Err(QuizError::InvalidSymbol);
            }
            i = i + 1;
        }
        Ok(AnswerKey { answers })
    }
}

} // verus!
