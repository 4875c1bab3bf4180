//! Sets of candidate keys, and their narrowing by further attempts.
use vstd::prelude::*;

use crate::answer::Answer;
use crate::attempt::{is_key, render, AnswerKey, QuizAttempt};

verus! {

/// The answer sequences of a list of keys, in order.
pub open spec fn key_views(keys: Seq<AnswerKey>) -> Seq<Seq<Answer>> {
    keys.map_values(|k: AnswerKey| k.answers@)
}

/// The characters of each string, in order.
pub open spec fn string_views(v: Seq<String>) -> Seq<Seq<char>> {
    v.map_values(|s: String| s@)
}

/// A collection of distinct candidate keys.
pub struct AnswerKeySet {
    pub keys: Vec<AnswerKey>,
}

impl View for AnswerKeySet {
    type V = Seq<Seq<Answer>>;

    open spec fn view(&self) -> Seq<Seq<Answer>> {
        key_views(self.keys@)
    }
}

impl AnswerKeySet {
    /// No key appears twice, and none holds the sentinel.
    pub open spec fn wf(&self) -> bool {
        &&& self@.no_duplicates()
        &&& forall|i: int| 0 <= i < self@.len() ==> is_key(#[trigger] self@[i])
    }

    /// The keys, as a set.
    pub open spec fn contents(&self) -> Set<Seq<Answer>> {
        self@.to_set()
    }

    /// The number of keys.
    pub fn len(&self) -> (r: usize)
        ensures
            r == self@.len(),
    {
        self.keys.len()
    }

    /// Each key written with one symbol per answer, in order.
    pub fn as_strings(&self) -> (r: Vec<String>)
        ensures
            string_views(r@) == self@.map_values(|k: Seq<Answer>| render(k)),
    {
        let mut r: Vec<String> = Vec::new();
        let mut i: usize = 0;
        while i < self.keys.len()
            invariant
                i <= self@.len(),
                string_views(r@) == self@.take(i as int).map_values(|k: Seq<Answer>| render(k)),
            decreases self@.len() - i,
        {
            let ghost before = string_views(r@);
            r.push(self.keys[i].as_string());
            proof {
                assert(self@[i as int] == self.keys@[i as int].answers@);
                assert(self@.take(i + 1) =~= self@.take(i as int).push(self@[i as int]));
                assert(string_views(r@) =~= before.push(render(self@[i as int])));
            }
            i = i + 1;
            assert(string_views(r@) =~= self@.take(i as int).map_values(|k: Seq<Answer>| render(k)));
        }
        assert(self@.take(self@.len() as int) =~= self@);
        r
    }

    /// The keys that `attempt` admits, in their order here: those of its length
    /// that agree with its answers in exactly `score` positions.
    pub fn reduce(self, attempt: &QuizAttempt) -> (r: AnswerKeySet)
        ensures
            r@ == self@.filter(|k: Seq<Answer>| attempt.admits(k)),
            self.wf() ==> r.wf(),
    {
        let ghost pred = |k: Seq<Answer>| attempt.admits(k);
        let mut kept: Vec<AnswerKey> = Vec::new();
        let mut i: usize = 0;
        while i < self.keys.len()
            invariant
                i <= self@.len(),
                pred == (|k: Seq<Answer>| attempt.admits(k)),
                key_views(kept@) == self@.take(i as int).filter(pred),
            decreases self@.len() - i,
        {
            let ghost before = key_views(kept@);
            proof {
                assert(self@.take(i + 1) =~= self@.take(i as int).push(self@[i as int]));
                self@.take(i as int).lemma_filter_push(self@[i as int], pred);
            }
            if let Ok(true) = attempt.check(&self.keys[i]) {
                let answers = self.keys[i].answers.clone();
                assert(answers@ =~= self@[i as int]);
                kept.push(AnswerKey { answers });
                assert(key_views(kept@) =~= before.push(self@[i as int]));
            } else {
                assert(key_views(kept@) =~= before);
            }
            i = i + 1;
        }
        assert(self@.take(self@.len() as int) =~= self@);
        let r = AnswerKeySet { keys: kept };
        proof {
            if self.wf() {
                assert forall|i: int| 0 <= i < r@.len() implies is_key(#[trigger] r@[i]) by {
                    assert(r@.contains(r@[i]));
                    self@.lemma_filter_contains_rev(pred, r@[i]);
                }
                lemma_filter_no_duplicates(self@, pred);
            }
        }
        r
    }
}

proof fn lemma_filter_no_duplicates(s: Seq<Seq<Answer>>, pred: spec_fn(Seq<Answer>) -> bool)
    requires
        s.no_duplicates(),
    ensures
        s.filter(pred).no_duplicates(),
    decreases s.len(),
{
    reveal(Seq::filter);
    if s.len() > 0 {
        let r = s.drop_last();
        assert(r.no_duplicates()) by {
            assert forall|i: int, j: int| 0 <= i < r.len() && 0 <= j < r.len() && i != j implies r[i]
                != r[j] by {
                assert(r[i] == s[i] && r[j] == s[j]);
            }
        }
        lemma_filter_no_duplicates(r, pred);
        if pred(s.last()) {
            assert(!r.contains(s.last())) by {
                if r.contains(s.last()) {
                    let t = choose|t: int| 0 <= t < r.len() && r[t] == s.last();
                    assert(s[t] == s[s.len() - 1]);
                }
            }
            if r.filter(pred).contains(s.last()) {
                r.lemma_filter_contains_rev(pred, s.last());
            }
        }
    }
}

} // verus!
