//! From a list of graded attempts to the keys that agree with all of them.
use vstd::prelude::*;

use crate::answer::{Answer, QuizError};
use crate::attempt::{
    consistent, is_key, lemma_render_injective, parse_attempt, render, QuizAttempt,
};
use crate::generate::valid_keys;
use crate::keyset::{string_views, AnswerKeySet};

verus! {

broadcast use vstd::seq_lib::group_to_multiset_ensures;

/// Scores never increase along `atts`.
pub open spec fn by_descending_score(atts: Seq<QuizAttempt>) -> bool {
    forall|i: int, j: int| 0 <= i < j < atts.len() ==> atts[i].score >= atts[j].score
}

/// Every attempt of `atts` has as many answers as the first.
pub open spec fn same_length(atts: Seq<QuizAttempt>) -> bool {
    forall|i: int| 0 <= i < atts.len() ==> (#[trigger] atts[i]).answers@.len() == atts[0].answers@.len()
}

/// `key` gets the recorded score from every attempt of `atts`.
pub open spec fn admitted_by_all(atts: Seq<QuizAttempt>, key: Seq<Answer>) -> bool {
    forall|i: int| 0 <= i < atts.len() ==> (#[trigger] atts[i]).admits(key)
}

/// The keys that agree with every attempt of `atts` in exactly its score.
pub open spec fn solutions(atts: Seq<QuizAttempt>) -> Set<Seq<Answer>> {
    Set::new(|k: Seq<Answer>| is_key(k) && admitted_by_all(atts, k))
}

/// Puts the attempts in order of descending score.
pub fn sort_by_score(atts: Vec<QuizAttempt>) -> (r: Vec<QuizAttempt>)
    ensures
        r@.to_multiset() == atts@.to_multiset(),
        by_descending_score(r@),
{
    let ghost all = atts@;
    let mut rest = atts;
    let mut sorted: Vec<QuizAttempt> = Vec::new();
    while rest.len() > 0
        invariant
            sorted@.to_multiset().add(rest@.to_multiset()) == all.to_multiset(),
            by_descending_score(sorted@),
            forall|i: int, j: int|
                0 <= i < sorted@.len() && 0 <= j < rest@.len() ==> sorted@[i].score
                    >= rest@[j].score,
        decreases rest@.len(),
    {
        let mut best: usize = 0;
        let mut j: usize = 1;
        while j < rest.len()
            invariant
                best < rest@.len(),
                1 <= j <= rest@.len(),
                forall|t: int| 0 <= t < j ==> rest@[t].score <= rest@[best as int].score,
            decreases rest@.len() - j,
        {
            if rest[j].score > rest[best].score {
                best = j;
            }
            j = j + 1;
        }
        let ghost old_rest = rest@;
        let ghost old_sorted = sorted@;
        let x = rest.remove(best);
        sorted.push(x);
        proof {
            assert(old_rest.remove(best as int).to_multiset() =~= old_rest.to_multiset().remove(x));
            assert(old_sorted.push(x).to_multiset() =~= old_sorted.to_multiset().insert(x));
            assert(old_rest.contains(x)) by {
                assert(old_rest[best as int] == x);
            }
            assert(sorted@.to_multiset().add(rest@.to_multiset()) =~= all.to_multiset());
            assert forall|i: int, j: int|
                0 <= i < sorted@.len() && 0 <= j < rest@.len() implies sorted@[i].score
                >= rest@[j].score by {
                if j < best {
                    assert(rest@[j] == old_rest[j]);
                } else {
                    assert(rest@[j] == old_rest[j + 1]);
                }
            }
        }
    }
    sorted
}

proof fn lemma_filter_and(
    s: Seq<Seq<Answer>>,
    p: spec_fn(Seq<Answer>) -> bool,
    q: spec_fn(Seq<Answer>) -> bool,
    pq: spec_fn(Seq<Answer>) -> bool,
)
    requires
        forall|x: Seq<Answer>| #[trigger] pq(x) == (p(x) && q(x)),
    ensures
        s.filter(p).filter(q) == s.filter(pq),
    decreases s.len(),
{
    reveal(Seq::filter);
    if s.len() > 0 {
        lemma_filter_and(s.drop_last(), p, q, pq);
        s.drop_last().filter(p).lemma_filter_push(s.last(), q);
    }
}

impl AnswerKeySet {
    /// Narrows the set by each attempt of `atts` in turn: the keys kept are
    /// those that every attempt admits.
    pub fn reduce_all(self, atts: &[QuizAttempt]) -> (r: AnswerKeySet)
        ensures
            r@ == self@.filter(|k: Seq<Answer>| admitted_by_all(atts@, k)),
            self.wf() ==> r.wf(),
    {
        let ghost start = self@;
        let ghost start_wf = self.wf();
        let mut cur = self;
        let mut i: usize = 0;
        assert(start.filter(|k: Seq<Answer>| admitted_by_all(atts@.take(0), k)) == start) by {
            reveal(Seq::filter);
            assert forall|k: Seq<Answer>| admitted_by_all(atts@.take(0), k) by {}
            lemma_filter_true(start, |k: Seq<Answer>| admitted_by_all(atts@.take(0), k));
        }
        while i < atts.len()
            invariant
                i <= atts@.len(),
                cur@ == start.filter(|k: Seq<Answer>| admitted_by_all(atts@.take(i as int), k)),
                start_wf ==> cur.wf(),
            decreases atts@.len() - i,
        {
            let ghost before = cur@;
            cur = cur.reduce(&atts[i]);
            proof {
                let p = |k: Seq<Answer>| admitted_by_all(atts@.take(i as int), k);
                let q = |k: Seq<Answer>| atts@[i as int].admits(k);
                let pq = |k: Seq<Answer>| admitted_by_all(atts@.take(i + 1), k);
                assert forall|x: Seq<Answer>| #[trigger] pq(x) == (p(x) && q(x)) by {
                    let t = atts@.take(i + 1);
                    if p(x) && q(x) {
                        assert forall|j: int| 0 <= j < t.len() implies (#[trigger] t[j]).admits(x) by {
                            if j < i {
                                assert(t[j] == atts@.take(i as int)[j]);
                            }
                        }
                    }
                    if pq(x) {
                        assert(t[i as int] == atts@[i as int]);
                        assert forall|j: int| 0 <= j < i implies (#[trigger] atts@.take(i as int)[j]).admits(x) by {
                            assert(t[j] == atts@.take(i as int)[j]);
                        }
                    }
                }
                lemma_filter_and(start, p, q, pq);
            }
            i = i + 1;
        }
        assert(atts@.take(atts@.len() as int) =~= atts@);
        cur
    }
}

proof fn lemma_filter_true(s: Seq<Seq<Answer>>, p: spec_fn(Seq<Answer>) -> bool)
    requires
        forall|x: Seq<Answer>| #[trigger] p(x),
    ensures
        s.filter(p) == s,
    decreases s.len(),
{
    reveal(Seq::filter);
    if s.len() > 0 {
        lemma_filter_true(s.drop_last(), p);
        assert(s.drop_last().push(s.last()) =~= s);
    }
}

/// Whether every attempt has as many answers as the first.
pub fn lengths_agree(atts: &Vec<QuizAttempt>) -> (r: bool)
    ensures
        r == same_length(atts@),
{
    if atts.len() == 0 {
        return true;
    }
    let n = atts[0].answers.len();
    let mut i: usize = 1;
    while i < atts.len()
        invariant
            1 <= i <= atts@.len(),
            n == atts@[0].answers@.len(),
            forall|j: int| 0 <= j < i ==> (#[trigger] atts@[j]).answers@.len() == n,
        decreases atts@.len() - i,
    {
        if atts[i].answers.len() != n {
            return false;
        }
        i = i + 1;
    }
    true
}

/// The keys that agree with every attempt in exactly its score, each once.
///
/// The attempts are ordered by descending score; the first seeds the
/// candidates, which the others then narrow in that order.
pub fn solve(atts: Vec<QuizAttempt>) -> (r: Result<AnswerKeySet, QuizError>)
    requires
        forall|i: int| 0 <= i < atts@.len() ==> (#[trigger] atts@[i]).wf(),
    ensures
        atts@.len() == 0 ==> r == Err::<AnswerKeySet, QuizError>(QuizError::EmptyInput),
        atts@.len() > 0 && !same_length(atts@) ==> r == Err::<AnswerKeySet, QuizError>(
            QuizError::LengthMismatch,
        ),
        atts@.len() > 0 && same_length(atts@) ==> match r {
            Ok(set) => set.wf() && set.contents() == solutions(atts@),
            Err(_) => false,
        },
{
    if atts.len() == 0 {
        return Err(QuizError::EmptyInput);
    }
    if !lengths_agree(&atts) {
        return Err(QuizError::LengthMismatch);
    }
    let ghost all = atts@;
    let mut sorted = sort_by_score(atts);
    proof {
        assert(all.len() == all.to_multiset().len());
        assert(sorted@.len() == sorted@.to_multiset().len());
        assert(sorted@.len() > 0);
    }
    let seed = sorted.remove(0);
    let ghost rest = sorted@;
    proof {
        assert(all.to_multiset().count(seed) > 0);
        assert(all.contains(seed));
        let u = choose|u: int| 0 <= u < all.len() && all[u] == seed;
        assert(all[u].wf());
    }
    let candidates = seed.generate_valid_set();
    let set = candidates.reduce_all(sorted.as_slice());
    proof {
        let full = rest.insert(0, seed);
        assert(full.to_multiset() =~= all.to_multiset()) by {
            assert(full.remove(0) =~= rest);
        }
        let pred = |k: Seq<Answer>| admitted_by_all(rest, k);
        assert forall|k: Seq<Answer>| set.contents().contains(k) <==> solutions(all).contains(k) by {
            let c = candidates@;
            assert(all.contains(seed));
            assert(forall|x: QuizAttempt| all.contains(x) <==> full.contains(x)) by {
                assert forall|x: QuizAttempt| all.contains(x) <==> full.contains(x) by {
                    assert(all.to_multiset().count(x) == full.to_multiset().count(x));
                }
            }
            if set.contents().contains(k) {
                c.lemma_filter_contains_rev(pred, k);
                let t = choose|t: int| 0 <= t < set@.len() && set@[t] == k;
                c.lemma_filter_pred(pred, t);
                assert(candidates.contents().contains(k));
                assert(valid_keys(seed.answers@, seed.score as int).contains(k));
                assert forall|i: int| 0 <= i < all.len() implies (#[trigger] all[i]).admits(k) by {
                    assert(all.contains(all[i]));
                    assert(full.contains(all[i]));
                    let u = choose|u: int| 0 <= u < full.len() && full[u] == all[i];
                    if u > 0 {
                        assert(full[u] == rest[u - 1]);
                    }
                }
            }
            if solutions(all).contains(k) {
                assert(seed.admits(k)) by {
                    let u = choose|u: int| 0 <= u < all.len() && all[u] == seed;
                }
                assert(valid_keys(seed.answers@, seed.score as int).contains(k));
                assert(c.contains(k));
                assert(pred(k)) by {
                    assert forall|i: int| 0 <= i < rest.len() implies (#[trigger] rest[i]).admits(k) by {
                        assert(full[i + 1] == rest[i]);
                        assert(full.contains(rest[i]));
                        let u = choose|u: int| 0 <= u < all.len() && all[u] == rest[i];
                    }
                }
                let t = choose|t: int| 0 <= t < c.len() && c[t] == k;
                c.lemma_filter_contains(pred, t);
            }
        }
        assert(set.contents() =~= solutions(all));
    }
    Ok(set)
}

/// The error of the first of the first `i` records that is not a valid
/// attempt, if there is one.
pub open spec fn first_record_error(recs: Seq<(&str, i32)>, i: int) -> Option<QuizError>
    decreases i,
{
    if i <= 0 {
        None
    } else {
        match first_record_error(recs, i - 1) {
            Some(e) => Some(e),
            None => match parse_attempt(recs[i - 1].0@, recs[i - 1].1 as int) {
                Err(e) => Some(e),
                Ok(_) => None,
            },
        }
    }
}

/// Every record's answer string is as long as the first's.
pub open spec fn records_same_length(recs: Seq<(&str, i32)>) -> bool {
    forall|i: int| 0 <= i < recs.len() ==> (#[trigger] recs[i]).0@.len() == recs[0].0@.len()
}

/// The keys that agree with every record, read as an attempt, in exactly its score.
pub open spec fn record_solutions(recs: Seq<(&str, i32)>) -> Set<Seq<Answer>> {
    Set::new(
        |k: Seq<Answer>|
            is_key(k) && forall|i: int|
                0 <= i < recs.len() ==> consistent(
                    parse_attempt((#[trigger] recs[i]).0@, recs[i].1 as int)->Ok_0,
                    recs[i].1 as int,
                    k,
                ),
    )
}

/// The possible answer keys, each written with one symbol per answer, given
/// graded attempts as pairs of an answer string and a score.
pub fn infer(records: &[(&str, i32)]) -> (r: Result<Vec<String>, QuizError>)
    ensures
        records@.len() == 0 ==> r == Err::<Vec<String>, QuizError>(QuizError::EmptyInput),
        records@.len() > 0 ==> match first_record_error(records@, records@.len() as int) {
            Some(e) => r == Err::<Vec<String>, QuizError>(e),
            None => if !records_same_length(records@) {
                r == Err::<Vec<String>, QuizError>(QuizError::LengthMismatch)
            } else {
                match r {
                    Ok(v) => {
                        &&& string_views(v@).no_duplicates()
                        &&& string_views(v@).to_set() == record_solutions(records@).map(
                            |k: Seq<Answer>| render(k),
                        )
                    },
                    Err(_) => false,
                }
            },
        },
{
    if records.len() == 0 {
        return Err(QuizError::EmptyInput);
    }
    let ghost recs = records@;
    let mut atts: Vec<QuizAttempt> = Vec::new();
    let mut i: usize = 0;
    while i < records.len()
        invariant
            recs == records@,
            i <= recs.len(),
            first_record_error(recs, i as int) is None,
            atts@.len() == i,
            forall|j: int|
                0 <= j < i ==> {
                    &&& (#[trigger] atts@[j]).wf()
                    &&& parse_attempt(recs[j].0@, recs[j].1 as int) == Ok::<
                        Seq<Answer>,
                        QuizError,
                    >(atts@[j].answers@)
                    &&& atts@[j].score == recs[j].1
                },
        decreases recs.len() - i,
    {
        let (text, score) = records[i];
        match QuizAttempt::from_string(text, score) {
            Ok(att) => atts.push(att),
            Err(e) => {
                proof {
                    lemma_record_error_sticks(recs, i as int + 1, recs.len() as int);
                }
                return Err(e);
            },
        }
        i = i + 1;
    }
    proof {
        assert forall|j: int| 0 <= j < recs.len() implies (#[trigger] atts@[j]).answers@.len()
            == recs[j].0@.len() by {}
        if same_length(atts@) {
            assert forall|j: int| 0 <= j < recs.len() implies (#[trigger] recs[j]).0@.len()
                == recs[0].0@.len() by {
                assert(atts@[j].answers@.len() == atts@[0].answers@.len());
            }
        } else {
            let j = choose|j: int| 0 <= j < atts@.len() && (#[trigger] atts@[j]).answers@.len()
                != atts@[0].answers@.len();
            assert(recs[j].0@.len() != recs[0].0@.len());
        }
    }
    let set = match solve(atts) {
        Ok(set) => set,
        Err(e) => {
            return Err(e);
        },
    };
    let strings = set.as_strings();
    proof {
        let views = string_views(strings@);
        assert forall|a: int, b: int| 0 <= a < views.len() && 0 <= b < views.len() && a != b
            implies views[a] != views[b] by {
            if views[a] == views[b] {
                lemma_render_injective(set@[a], set@[b]);
            }
        }
        assert(solutions(atts@) =~= record_solutions(recs)) by {
            assert forall|k: Seq<Answer>| solutions(atts@).contains(k) <==> record_solutions(
                recs,
            ).contains(k) by {
                if solutions(atts@).contains(k) {
                    assert forall|j: int| 0 <= j < recs.len() implies consistent(
                        parse_attempt((#[trigger] recs[j]).0@, recs[j].1 as int)->Ok_0,
                        recs[j].1 as int,
                        k,
                    ) by {
                        assert(atts@[j].admits(k));
                    }
                }
                if record_solutions(recs).contains(k) {
                    assert forall|j: int| 0 <= j < atts@.len() implies (#[trigger] atts@[j]).admits(
                        k,
                    ) by {
                        assert(consistent(
                            parse_attempt(recs[j].0@, recs[j].1 as int)->Ok_0,
                            recs[j].1 as int,
                            k,
                        ));
                    }
                }
            }
        }
        let f = |k: Seq<Answer>| render(k);
        assert forall|s: Seq<char>| views.to_set().contains(s) <==> set.contents().map(f).contains(
            s,
        ) by {
            assert(views.to_set().contains(s) == views.contains(s));
            if views.contains(s) {
                let a = choose|a: int| 0 <= a < views.len() && views[a] == s;
                assert(set@.contains(set@[a]));
                assert(set.contents().contains(set@[a]) && s == f(set@[a]));
            }
            if set.contents().map(f).contains(s) {
                let k = choose|k: Seq<Answer>| set.contents().contains(k) && s == f(k);
                let a = choose|a: int| 0 <= a < set@.len() && set@[a] == k;
                assert(views[a] == s);
            }
        }
        assert(views.to_set() =~= record_solutions(recs).map(f));
    }
    Ok(strings)
}

proof fn lemma_record_error_sticks(recs: Seq<(&str, i32)>, i: int, j: int)
    requires
        0 <= i <= j,
        first_record_error(recs, i) is Some,
    ensures
        first_record_error(recs, j) == first_record_error(recs, i),
    decreases j - i,
{
    if j > i {
        lemma_record_error_sticks(recs, i, j - 1);
    }
}

} // verus!
