//! The candidate keys that one graded attempt allows.
use vstd::prelude::*;

use crate::answer::{is_option, Answer};
use crate::attempt::{consistent, is_key, matches_upto, AnswerKey, QuizAttempt};
use crate::combinatorics::{choice_product, index_combinations, is_combination, picks_from};
use crate::keyset::{key_views, AnswerKeySet};

verus! {

/// The keys that an attempt with these answers and this score admits.
pub open spec fn valid_keys(answers: Seq<Answer>, score: int) -> Set<Seq<Answer>> {
    Set::new(|k: Seq<Answer>| is_key(k) && consistent(answers, score, k))
}

/// The positions below `i` where `a` and `b` differ, in increasing order.
pub open spec fn diff_positions(a: Seq<Answer>, b: Seq<Answer>, i: int) -> Seq<usize>
    decreases i,
{
    if i <= 0 {
        Seq::empty()
    } else if a[i - 1] != b[i - 1] {
        diff_positions(a, b, i - 1).push((i - 1) as usize)
    } else {
        diff_positions(a, b, i - 1)
    }
}

/// `s` is strictly increasing.
pub open spec fn increasing(s: Seq<usize>) -> bool {
    forall|i: int, j: int| 0 <= i < j < s.len() ==> s[i] < s[j]
}

/// `key` is a key of the seed's length that differs from `seed` exactly at the
/// indices listed in `c`.
pub open spec fn differs_exactly_at(seed: Seq<Answer>, key: Seq<Answer>, c: Seq<usize>) -> bool {
    &&& is_key(key)
    &&& key.len() == seed.len()
    &&& diff_positions(seed, key, seed.len() as int) == c
}

/// The values that `key` holds at the indices `pos`.
pub open spec fn values_at(key: Seq<Answer>, pos: Seq<usize>) -> Seq<Answer> {
    Seq::new(pos.len(), |t: int| key[pos[t] as int])
}

proof fn lemma_diff_positions(a: Seq<Answer>, b: Seq<Answer>, i: int)
    requires
        0 <= i <= a.len(),
        a.len() == b.len(),
        a.len() <= usize::MAX + 1,
    ensures
        diff_positions(a, b, i).len() + matches_upto(a, b, i) == i,
        increasing(diff_positions(a, b, i)),
        forall|t: int|
            0 <= t < diff_positions(a, b, i).len() ==> #[trigger] diff_positions(a, b, i)[t] < i,
        forall|p: int|
            0 <= p < i ==> (a[p] != b[p] <==> diff_positions(a, b, i).contains(p as usize)),
    decreases i,
{
    if i > 0 {
        lemma_diff_positions(a, b, i - 1);
        let prev = diff_positions(a, b, i - 1);
        let cur = diff_positions(a, b, i);
        assert forall|p: int| 0 <= p < i implies (a[p] != b[p] <==> cur.contains(p as usize)) by {
            if a[i - 1] != b[i - 1] {
                assert(cur == prev.push((i - 1) as usize));
                if p < i - 1 {
                    if cur.contains(p as usize) {
                        let t = choose|t: int| 0 <= t < cur.len() && cur[t] == p as usize;
                        if t < prev.len() {
                            assert(prev[t] == cur[t]);
                        }
                    }
                    if prev.contains(p as usize) {
                        let t = choose|t: int| 0 <= t < prev.len() && prev[t] == p as usize;
                        assert(cur[t] == prev[t]);
                    }
                } else {
                    assert(cur[cur.len() - 1] == (i - 1) as usize);
                }
            } else {
                if p == i - 1 && prev.contains(p as usize) {
                    let t = choose|t: int| 0 <= t < prev.len() && prev[t] == p as usize;
                    assert(prev[t] < i - 1);
                }
            }
        }
    }
}

/// Two strictly increasing sequences with the same members are equal.
proof fn lemma_increasing_unique(s1: Seq<usize>, s2: Seq<usize>)
    requires
        increasing(s1),
        increasing(s2),
        forall|x: usize| s1.contains(x) <==> s2.contains(x),
    ensures
        s1 == s2,
    decreases s1.len() + s2.len(),
{
    if s1.len() == 0 {
        if s2.len() > 0 {
            assert(s2.contains(s2[0]));
        }
        assert(s1 =~= s2);
    } else if s2.len() == 0 {
        assert(s1.contains(s1[0]));
    } else {
        let m1 = s1.last();
        let m2 = s2.last();
        assert(s1.contains(m1));
        assert(s2.contains(m2));
        let t2 = choose|t: int| 0 <= t < s2.len() && s2[t] == m1;
        let t1 = choose|t: int| 0 <= t < s1.len() && s1[t] == m2;
        assert(m1 == m2) by {
            if t2 < s2.len() - 1 {
                assert(s2[t2] < s2[s2.len() - 1]);
            }
            if t1 < s1.len() - 1 {
                assert(s1[t1] < s1[s1.len() - 1]);
            }
        }
        let r1 = s1.drop_last();
        let r2 = s2.drop_last();
        assert forall|x: usize| r1.contains(x) <==> r2.contains(x) by {
            if r1.contains(x) {
                let t = choose|t: int| 0 <= t < r1.len() && r1[t] == x;
                assert(s1[t] == x);
                assert(x < m1);
                assert(s1.contains(x));
                let u = choose|u: int| 0 <= u < s2.len() && s2[u] == x;
                assert(u < s2.len() - 1);
                assert(r2[u] == x);
            }
            if r2.contains(x) {
                let t = choose|t: int| 0 <= t < r2.len() && r2[t] == x;
                assert(s2[t] == x);
                assert(x < m2);
                assert(s2.contains(x));
                let u = choose|u: int| 0 <= u < s1.len() && s1[u] == x;
                assert(u < s1.len() - 1);
                assert(r1[u] == x);
            }
        }
        lemma_increasing_unique(r1, r2);
        assert(s1 =~= r1.push(m1));
        assert(s2 =~= r2.push(m2));
    }
}

/// The options other than `ans`, each once.
fn alternatives(ans: Answer) -> (r: Vec<Answer>)
    ensures
        r@.no_duplicates(),
        forall|a: Answer| r@.contains(a) <==> (is_option(a) && a != ans),
{
    let r: Vec<Answer> = match ans {
        Answer::A => vec![Answer::B, Answer::C, Answer::D],
        Answer::B => vec![Answer::A, Answer::C, Answer::D],
        Answer::C => vec![Answer::A, Answer::B, Answer::D],
        Answer::D => vec![Answer::A, Answer::B, Answer::C],
        Answer::X => vec![Answer::A, Answer::B, Answer::C, Answer::D],
    };
    proof {
        assert forall|i: int| 0 <= i < r@.len() implies r@.contains(#[trigger] r@[i]) by {}
        assert forall|a: Answer| r@.contains(a) <==> (is_option(a) && a != ans) by {
            if r@.contains(a) {
                let t = choose|t: int| 0 <= t < r@.len() && r@[t] == a;
            }
        }
    }
    r
}

/// For each index of `pos`, the options that differ from the seed's answer there.
fn replacement_choices(seed: &Vec<Answer>, pos: &Vec<usize>) -> (r: Vec<Vec<Answer>>)
    requires
        forall|t: int| 0 <= t < pos@.len() ==> #[trigger] pos@[t] < seed@.len(),
    ensures
        r@.len() == pos@.len(),
        forall|t: int| 0 <= t < r@.len() ==> (#[trigger] r@[t]@).no_duplicates(),
        forall|t: int, a: Answer|
            0 <= t < r@.len() ==> ((#[trigger] r@[t]@.contains(a)) <==> (is_option(a) && a
                != seed@[pos@[t] as int])),
{
    let mut r: Vec<Vec<Answer>> = Vec::new();
    let mut t: usize = 0;
    while t < pos.len()
        invariant
            forall|t: int| 0 <= t < pos@.len() ==> #[trigger] pos@[t] < seed@.len(),
            t <= pos@.len(),
            r@.len() == t,
            forall|u: int| 0 <= u < r@.len() ==> (#[trigger] r@[u]@).no_duplicates(),
            forall|u: int, a: Answer|
                0 <= u < r@.len() ==> ((#[trigger] r@[u]@.contains(a)) <==> (is_option(a) && a
                    != seed@[pos@[u] as int])),
        decreases pos@.len() - t,
    {
        r.push(alternatives(seed[pos[t]]));
        t = t + 1;
    }
    r
}

/// A copy of `seed` with the value `pick[t]` written at index `pos[t]`.
fn overwrite(seed: &Vec<Answer>, pos: &Vec<usize>, pick: &Vec<Answer>) -> (r: Vec<Answer>)
    requires
        forall|t: int| 0 <= t < pos@.len() ==> #[trigger] pos@[t] < seed@.len(),
        increasing(pos@),
        pick@.len() == pos@.len(),
    ensures
        r@.len() == seed@.len(),
        values_at(r@, pos@) == pick@,
        forall|p: int| 0 <= p < seed@.len() && !pos@.contains(p as usize) ==> r@[p] == seed@[p],
{
    let mut r: Vec<Answer> = Vec::new();
    let mut p: usize = 0;
    while p < seed.len()
        invariant
            p <= seed@.len(),
            r@ == seed@.take(p as int),
        decreases seed@.len() - p,
    {
        r.push(seed[p]);
        p = p + 1;
        assert(r@ =~= seed@.take(p as int));
    }
    let mut t: usize = 0;
    while t < pos.len()
        invariant
            forall|t: int| 0 <= t < pos@.len() ==> #[trigger] pos@[t] < seed@.len(),
            increasing(pos@),
            pick@.len() == pos@.len(),
            t <= pos@.len(),
            r@.len() == seed@.len(),
            forall|u: int| 0 <= u < t ==> r@[#[trigger] pos@[u] as int] == pick@[u],
            forall|q: int|
                0 <= q < seed@.len() && !pos@.take(t as int).contains(q as usize) ==> r@[q]
                    == seed@[q],
        decreases pos@.len() - t,
    {
        r.set(pos[t], pick[t]);
        proof {
            assert forall|q: int|
                0 <= q < seed@.len() && !pos@.take(t + 1).contains(q as usize) implies r@[q]
                == seed@[q] by {
                assert(pos@.take(t + 1)[t as int] == pos@[t as int]);
                if pos@.take(t as int).contains(q as usize) {
                    let u = choose|u: int|
                        0 <= u < t && pos@.take(t as int)[u] == q as usize;
                    assert(pos@.take(t + 1)[u] == q as usize);
                }
            }
        }
        t = t + 1;
    }
    proof {
        assert(pos@.take(pos@.len() as int) =~= pos@);
        assert(values_at(r@, pos@) =~= pick@);
    }
    r
}

/// Whether some position holds the sentinel.
fn has_sentinel(answers: &Vec<Answer>) -> (r: bool)
    ensures
        r == !is_key(answers@),
{
    let mut i: usize = 0;
    while i < answers.len()
        invariant
            i <= answers@.len(),
            forall|j: int| 0 <= j < i ==> is_option(#[trigger] answers@[j]),
        decreases answers@.len() - i,
    {
        if answers[i] == Answer::X {
            return true;
        }
        i = i + 1;
    }
    false
}

impl QuizAttempt {
    /// Every key that this attempt allows given its score: each key without
    /// the sentinel that agrees with the attempt's answers in exactly `score`
    /// positions, once.
    ///
    /// The search takes each choice of `n - score` positions to be the wrong
    /// ones and writes, at each of them, every option other than the one the
    /// attempt chose there.
    pub fn generate_valid_set(&self) -> (r: AnswerKeySet)
        requires
            self.wf(),
        ensures
            r.wf(),
            r.contents() == valid_keys(self.answers@, self.score as int),
    {
        let n = self.answers.len();
        let k = n - self.score as usize;
        let combos = index_combinations(n, k);
        let ghost seed = self.answers@;
        let ghost score = self.score as int;
        let mut keys: Vec<AnswerKey> = Vec::new();
        let mut ci: usize = 0;
        while ci < combos.len()
            invariant
                seed == self.answers@,
                score == self.score as int,
                n == seed.len(),
                self.wf(),
                k == n - score,
                forall|i: int|
                    0 <= i < combos@.len() ==> is_combination(
                        #[trigger] combos@[i]@,
                        n as nat,
                        k as nat,
                    ),
                forall|i: int, j: int| 0 <= i < j < combos@.len() ==> combos@[i]@ != combos@[j]@,
                ci <= combos@.len(),
                key_views(keys@).no_duplicates(),
                forall|a: int|
                    0 <= a < keys@.len() ==> valid_keys(seed, score).contains(
                        #[trigger] key_views(keys@)[a],
                    ),
                forall|a: int, j: int|
                    0 <= a < keys@.len() && ci <= j < combos@.len() ==> diff_positions(
                        seed,
                        #[trigger] key_views(keys@)[a],
                        n as int,
                    ) != #[trigger] combos@[j]@,
                forall|key: Seq<Answer>, j: int|
                    0 <= j < ci && #[trigger] differs_exactly_at(seed, key, combos@[j]@)
                        ==> key_views(keys@).contains(key),
            decreases combos@.len() - ci,
        {
            let pos = &combos[ci];
            assert(is_combination(combos@[ci as int]@, n as nat, k as nat));
            let choices = replacement_choices(&self.answers, pos);
            let picks = choice_product(choices);
            let ghost start = keys@.len();
            let mut pi: usize = 0;
            while pi < picks.len()
                invariant
                    seed == self.answers@,
                    score == self.score as int,
                    n == seed.len(),
                    self.wf(),
                    k == n - score,
                    forall|i: int|
                        0 <= i < combos@.len() ==> is_combination(
                            #[trigger] combos@[i]@,
                            n as nat,
                            k as nat,
                        ),
                    forall|i: int, j: int|
                        0 <= i < j < combos@.len() ==> combos@[i]@ != combos@[j]@,
                    ci < combos@.len(),
                    *pos == combos@[ci as int],
                    choices@.len() == pos@.len(),
                    forall|t: int| 0 <= t < choices@.len() ==> (#[trigger] choices@[t]@).no_duplicates(),
                    forall|t: int, a: Answer|
                        0 <= t < choices@.len() ==> ((#[trigger] choices@[t]@.contains(a)) <==> (
                        is_option(a) && a != seed[pos@[t] as int])),
                    forall|i: int| 0 <= i < picks@.len() ==> picks_from(#[trigger] picks@[i]@, choices@),
                    forall|i: int, j: int| 0 <= i < j < picks@.len() ==> picks@[i]@ != picks@[j]@,
                    pi <= picks@.len(),
                    start <= keys@.len(),
                    key_views(keys@).no_duplicates(),
                    forall|a: int|
                        0 <= a < keys@.len() ==> valid_keys(seed, score).contains(
                            #[trigger] key_views(keys@)[a],
                        ),
                    forall|a: int, j: int|
                        0 <= a < start && ci <= j < combos@.len() ==> diff_positions(
                            seed,
                            #[trigger] key_views(keys@)[a],
                            n as int,
                        ) != #[trigger] combos@[j]@,
                    forall|a: int|
                        start <= a < keys@.len() ==> diff_positions(
                            seed,
                            #[trigger] key_views(keys@)[a],
                            n as int,
                        ) == pos@,
                    forall|a: int, q: int|
                        start <= a < keys@.len() && pi <= q < picks@.len() ==> values_at(
                            #[trigger] key_views(keys@)[a],
                            pos@,
                        ) != #[trigger] picks@[q]@,
                    forall|key: Seq<Answer>, j: int|
                        0 <= j < ci && #[trigger] differs_exactly_at(seed, key, combos@[j]@)
                            ==> key_views(keys@).contains(key),
                    forall|key: Seq<Answer>, q: int|
                        #![trigger differs_exactly_at(seed, key, pos@), picks@[q]]
                        0 <= q < pi && differs_exactly_at(seed, key, pos@) && values_at(key, pos@)
                            == picks@[q]@ ==> key_views(keys@).contains(key),
                decreases picks@.len() - pi,
            {
                let cand = overwrite(&self.answers, pos, &picks[pi]);
                let ghost pick = picks@[pi as int]@;
                proof {
                    assert(picks_from(pick, choices@));
                    lemma_diff_positions(seed, cand@, n as int);
                    let d = diff_positions(seed, cand@, n as int);
                    assert forall|x: usize| d.contains(x) <==> pos@.contains(x) by {
                        if d.contains(x) {
                            let t = choose|t: int| 0 <= t < d.len() && d[t] == x;
                            assert(d[t] < n);
                            let p = x as int;
                            assert(seed[p] != cand@[p]);
                            assert(p as usize == x);
                        }
                        if pos@.contains(x) {
                            let t = choose|t: int| 0 <= t < pos@.len() && pos@[t] == x;
                            assert(values_at(cand@, pos@)[t] == pick[t]);
                            assert(choices@[t]@.contains(pick[t]));
                            let p = x as int;
                            assert(cand@[p] == pick[t]);
                            assert(seed[p] != cand@[p]);
                            assert(d.contains(p as usize));
                        }
                    }
                    lemma_increasing_unique(d, pos@);
                    assert forall|key: Seq<Answer>|
                        differs_exactly_at(seed, key, pos@) && values_at(key, pos@) == pick
                        implies key == cand@ by {
                        lemma_diff_positions(seed, key, n as int);
                        assert forall|p: int| 0 <= p < n implies key[p] == cand@[p] by {
                            if pos@.contains(p as usize) {
                                let t = choose|t: int| 0 <= t < pos@.len() && pos@[t] == p as usize;
                                assert(values_at(key, pos@)[t] == values_at(cand@, pos@)[t]);
                            }
                        }
                        assert(key =~= cand@);
                    }
                }
                if !has_sentinel(&cand) {
                    proof {
                        assert(differs_exactly_at(seed, cand@, pos@));
                        assert(valid_keys(seed, score).contains(cand@));
                        assert forall|a: int| 0 <= a < keys@.len() implies key_views(keys@)[a]
                            != cand@ by {
                            if a < start {
                                assert(diff_positions(seed, key_views(keys@)[a], n as int)
                                    != combos@[ci as int]@);
                            } else {
                                assert(values_at(key_views(keys@)[a], pos@) != picks@[pi as int]@);
                            }
                        }
                    }
                    let ghost old_keys = keys@;
                    keys.push(AnswerKey { answers: cand });
                    proof {
                        assert(key_views(keys@) =~= key_views(old_keys).push(cand@));
                        assert(key_views(keys@)[keys@.len() - 1] == cand@);
                        assert forall|key: Seq<Answer>|
                            key_views(old_keys).contains(key) implies key_views(keys@).contains(key) by {
                            let a = choose|a: int| 0 <= a < key_views(old_keys).len() && key_views(old_keys)[a] == key;
                            assert(key_views(keys@)[a] == key);
                        }
                    }
                }
                pi = pi + 1;
            }
            proof {
                assert forall|key: Seq<Answer>|
                    #[trigger] differs_exactly_at(seed, key, pos@) implies key_views(keys@).contains(key) by {
                    lemma_diff_positions(seed, key, n as int);
                    let v = values_at(key, pos@);
                    assert forall|t: int| 0 <= t < v.len() implies choices@[t]@.contains(#[trigger] v[t]) by {
                        assert(diff_positions(seed, key, n as int).contains(pos@[t]));
                    }
                    assert(picks_from(v, choices@));
                    let q = choose|q: int| 0 <= q < picks@.len() && picks@[q]@ == v;
                    assert(picks@[q]@ == v);
                }
            }
            ci = ci + 1;
        }
        proof {
            assert forall|key: Seq<Answer>| valid_keys(seed, score).contains(key)
                implies key_views(keys@).contains(key) by {
                lemma_diff_positions(seed, key, n as int);
                let c = diff_positions(seed, key, n as int);
                assert(is_combination(c, n as nat, k as nat));
                let j = choose|j: int| 0 <= j < combos@.len() && combos@[j]@ == c;
                assert(differs_exactly_at(seed, key, combos@[j]@));
            }
            assert(key_views(keys@).to_set() =~= valid_keys(seed, score));
        }
        AnswerKeySet { keys }
    }
}

} // verus!
