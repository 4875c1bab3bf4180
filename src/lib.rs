//! Infers the possible answer keys of a multiple-choice quiz from graded
//! attempts: the best-scored attempt seeds the candidate keys, and every other
//! attempt narrows them to those that give it exactly its score.
pub mod answer;
pub mod attempt;
pub mod combinatorics;
pub mod generate;
pub mod keyset;
pub mod laws;
pub mod pipeline;
pub mod record;

pub use answer::{Answer, QuizError};
pub use attempt::{AnswerKey, QuizAttempt};
pub use keyset::AnswerKeySet;
pub use pipeline::{infer, lengths_agree, solve, sort_by_score};
