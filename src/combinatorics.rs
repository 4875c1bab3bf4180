//! Enumerations of index choices and of per-position picks, from itertools.
use vstd::prelude::*;

use itertools::Itertools;

use crate::answer::Answer;

verus! {

/// `s` is a strictly increasing choice of `k` indices below `n`.
pub open spec fn is_combination(s: Seq<usize>, n: nat, k: nat) -> bool {
    &&& s.len() == k
    &&& forall|i: int| 0 <= i < s.len() ==> #[trigger] s[i] < n
    &&& forall|i: int, j: int| 0 <= i < j < s.len() ==> s[i] < s[j]
}

/// `s` takes, at each position, one of the values that `choices` offers there.
pub open spec fn picks_from(s: Seq<Answer>, choices: Seq<Vec<Answer>>) -> bool {
    &&& s.len() == choices.len()
    &&& forall|p: int| 0 <= p < s.len() ==> choices[p]@.contains(#[trigger] s[p])
}

/// Relies on itertools' `Itertools::combinations` applied to `0..n`: it yields
/// every strictly increasing choice of `k` indices below `n`, each exactly once.
#[verifier::external_body]
pub(crate) fn index_combinations(n: usize, k: usize) -> (r: Vec<Vec<usize>>)
    ensures
        forall|i: int| 0 <= i < r.len() ==> is_combination(#[trigger] r@[i]@, n as nat, k as nat),
        forall|s: Seq<usize>| #[trigger]
            is_combination(s, n as nat, k as nat) ==> exists|i: int|
                0 <= i < r.len() && #[trigger] r@[i]@ == s,
        forall|i: int, j: int| 0 <= i < j < r.len() ==> r@[i]@ != r@[j]@,
{
    (0..n).combinations(k).collect()
}

/// Relies on itertools' `Itertools::multi_cartesian_product`: it yields every
/// way of taking one value at each position (one empty pick when there are no
/// positions), one pick per combination of offered items.
#[verifier::external_body]
pub(crate) fn choice_product(choices: Vec<Vec<Answer>>) -> (r: Vec<Vec<Answer>>)
    ensures
        forall|i: int| 0 <= i < r.len() ==> picks_from(#[trigger] r@[i]@, choices@),
        forall|s: Seq<Answer>| #[trigger]
            picks_from(s, choices@) ==> exists|i: int| 0 <= i < r.len() && #[trigger] r@[i]@ == s,
        (forall|p: int| 0 <= p < choices.len() ==> (#[trigger] choices@[p]@).no_duplicates())
            ==> forall|i: int, j: int| 0 <= i < j < r.len() ==> r@[i]@ != r@[j]@,
{
    choices.into_iter().multi_cartesian_product().collect()
}

} // verus!
