//! Laws that relate the library's operations.
use vstd::prelude::*;

use crate::answer::Answer;
use crate::attempt::{consistent, is_key, match_count, matches_upto, QuizAttempt};
use crate::generate::valid_keys;
use crate::keyset::AnswerKeySet;
use crate::pipeline::{admitted_by_all, solutions};

verus! {

proof fn lemma_matches_bounded(a: Seq<Answer>, b: Seq<Answer>, i: int)
    requires
        0 <= i <= a.len(),
        a.len() == b.len(),
    ensures
        matches_upto(a, b, i) <= i,
        matches_upto(a, b, i) == i <==> forall|p: int| 0 <= p < i ==> a[p] == b[p],
        matches_upto(a, b, i) == 0 <==> forall|p: int| 0 <= p < i ==> a[p] != b[p],
    decreases i,
{
    if i > 0 {
        lemma_matches_bounded(a, b, i - 1);
    }
}

/// An attempt that copies a key and scores full marks admits that key, and no
/// other key of the same length.
pub proof fn lemma_exact_copy_admits_only_itself(key: Seq<Answer>, other: Seq<Answer>)
    ensures
        consistent(key, key.len() as int, key),
        other.len() == key.len() && other != key ==> !consistent(key, key.len() as int, other),
{
    lemma_matches_bounded(key, key, key.len() as int);
    if other.len() == key.len() {
        lemma_matches_bounded(key, other, key.len() as int);
        if match_count(key, other) == key.len() {
            assert(key =~= other);
        }
    }
}

/// An attempt with full marks and no sentinel admits its own answers.
pub proof fn lemma_perfect_seed_is_candidate(seed: QuizAttempt)
    requires
        seed.score == seed.answers@.len(),
        is_key(seed.answers@),
    ensures
        valid_keys(seed.answers@, seed.score as int).contains(seed.answers@),
{
    lemma_exact_copy_admits_only_itself(seed.answers@, seed.answers@);
}

/// The candidates of an attempt with full marks and no sentinel are exactly
/// its own answers, once.
pub proof fn lemma_perfect_seed_single_candidate(seed: QuizAttempt, out: AnswerKeySet)
    requires
        seed.score == seed.answers@.len(),
        is_key(seed.answers@),
        out.wf(),
        out.contents() == valid_keys(seed.answers@, seed.score as int),
    ensures
        out@ == seq![seed.answers@],
{
    let a = seed.answers@;
    lemma_perfect_seed_is_candidate(seed);
    assert(out@.contains(a));
    let t = choose|t: int| 0 <= t < out@.len() && out@[t] == a;
    assert forall|u: int| 0 <= u < out@.len() implies out@[u] == a by {
        assert(out.contents().contains(out@[u]));
        lemma_exact_copy_admits_only_itself(a, out@[u]);
    }
    if out@.len() > 1 {
        let u = if t == 0 {
            1int
        } else {
            0int
        };
        assert(out@[u] == out@[t]);
    }
    assert(out@ =~= seq![a]);
}

/// The candidates of an attempt that scored zero are the keys of its length
/// that differ from it at every position.
pub proof fn lemma_zero_score_candidates(answers: Seq<Answer>)
    ensures
        valid_keys(answers, 0) == Set::new(
            |k: Seq<Answer>|
                is_key(k) && k.len() == answers.len() && forall|p: int|
                    0 <= p < k.len() ==> k[p] != answers[p],
        ),
{
    assert forall|k: Seq<Answer>| #[trigger] valid_keys(answers, 0).contains(k) <==> (is_key(k)
        && k.len() == answers.len() && forall|p: int| 0 <= p < k.len() ==> k[p] != answers[p]) by {
        if k.len() == answers.len() {
            lemma_matches_bounded(answers, k, answers.len() as int);
        }
    }
    assert(valid_keys(answers, 0) =~= Set::new(
        |k: Seq<Answer>|
            is_key(k) && k.len() == answers.len() && forall|p: int|
                0 <= p < k.len() ==> k[p] != answers[p],
    ));
}

/// Narrowing by an attempt never adds keys.
pub proof fn lemma_reduce_never_grows(set: AnswerKeySet, attempt: QuizAttempt, out: AnswerKeySet)
    requires
        out@ == set@.filter(|k: Seq<Answer>| attempt.admits(k)),
    ensures
        out@.len() <= set@.len(),
{
    set@.lemma_filter_len(|k: Seq<Answer>| attempt.admits(k));
}

/// Narrowing by the same attempts in any order keeps the same keys.
pub proof fn lemma_reduce_order_irrelevant(
    keys: Seq<Seq<Answer>>,
    atts1: Seq<QuizAttempt>,
    atts2: Seq<QuizAttempt>,
)
    requires
        atts1.to_multiset() == atts2.to_multiset(),
    ensures
        keys.filter(|k: Seq<Answer>| admitted_by_all(atts1, k)) == keys.filter(
            |k: Seq<Answer>| admitted_by_all(atts2, k),
        ),
{
    broadcast use vstd::seq_lib::group_to_multiset_ensures;

    let fits_first = |k: Seq<Answer>| admitted_by_all(atts1, k);
    let fits_second = |k: Seq<Answer>| admitted_by_all(atts2, k);
    assert forall|k: Seq<Answer>| #[trigger] fits_first(k) == fits_second(k) by {
        if fits_first(k) {
            assert forall|i: int| 0 <= i < atts2.len() implies (#[trigger] atts2[i]).admits(k) by {
                assert(atts2.contains(atts2[i]));
                assert(atts1.to_multiset().count(atts2[i]) > 0);
                let j = choose|j: int| 0 <= j < atts1.len() && atts1[j] == atts2[i];
            }
        }
        if fits_second(k) {
            assert forall|i: int| 0 <= i < atts1.len() implies (#[trigger] atts1[i]).admits(k) by {
                assert(atts1.contains(atts1[i]));
                assert(atts2.to_multiset().count(atts1[i]) > 0);
                let j = choose|j: int| 0 <= j < atts2.len() && atts2[j] == atts1[i];
            }
        }
    }
    assert(fits_first =~= fits_second);
}

/// Every key of the final set gets its recorded score from every attempt.
pub proof fn lemma_final_keys_fit_every_attempt(atts: Seq<QuizAttempt>, out: AnswerKeySet)
    requires
        out.contents() == solutions(atts),
    ensures
        forall|t: int, i: int|
            0 <= t < out@.len() && 0 <= i < atts.len() ==> (#[trigger] atts[i]).admits(
                #[trigger] out@[t],
            ),
{
    assert forall|t: int, i: int| 0 <= t < out@.len() && 0 <= i < atts.len() implies (#[trigger] atts[i]).admits(
        #[trigger] out@[t],
    ) by {
        assert(out.contents().contains(out@[t]));
    }
}

} // verus!
