//! The ordered triples over a list of `n` things, counted from 0 to `n³ - 1`.
//!
//! The triple with number `t` is `t` written with three digits in base `n`:
//! the last position runs fastest.

use itertools::Itertools;
use vstd::arithmetic::div_mod::{
    lemma_div_pos_is_pos, lemma_fundamental_div_mod, lemma_mod_bound, lemma_multiply_divide_lt,
};
use vstd::arithmetic::mul::{lemma_mul_is_associative, lemma_mul_strictly_positive};
use vstd::prelude::*;

verus! {

/// How many ordered triples there are over `n` things.
pub open spec fn cube(n: int) -> int {
    n * n * n
}

/// The index at sn-1 of the triple with number `t`.
pub open spec fn first(t: int, n: int) -> int {
    (t / n) / n
}

/// The index at sn-2 of the triple with number `t`.
pub open spec fn second(t: int, n: int) -> int {
    (t / n) % n
}

/// The index at sn-3 of the triple with number `t`.
pub open spec fn third(t: int, n: int) -> int {
    t % n
}

/// The three indices of a triple are indices into the list.
pub proof fn lemma_triple_bounds(t: int, n: int)
    requires
        0 <= t < cube(n),
        0 <= n,
    ensures
        0 <= first(t, n) < n,
        0 <= second(t, n) < n,
        0 <= third(t, n) < n,
{
    assert(n > 0) by (nonlinear_arith)
        requires
            0 <= t < n * n * n,
            0 <= n,
    ;
    lemma_mul_strictly_positive(n, n);
    lemma_mul_is_associative(n, n, n);
    lemma_multiply_divide_lt(t, n, n * n);
    lemma_div_pos_is_pos(t, n);
    lemma_multiply_divide_lt(t / n, n, n);
    lemma_div_pos_is_pos(t / n, n);
    lemma_mod_bound(t / n, n);
    lemma_mod_bound(t, n);
}

/// Two triples with the same three indices have the same number.
pub proof fn lemma_triple_injective(t: int, u: int, n: int)
    requires
        0 < n,
        first(t, n) == first(u, n),
        second(t, n) == second(u, n),
        third(t, n) == third(u, n),
    ensures
        t == u,
{
    lemma_fundamental_div_mod(t, n);
    lemma_fundamental_div_mod(u, n);
    lemma_fundamental_div_mod(t / n, n);
    lemma_fundamental_div_mod(u / n, n);
}

/// Calls `itertools::Itertools::multi_cartesian_product` on the three lists,
/// and collects what it yields. The contract claims that it yields every
/// triple of an item of the first list, one of the second and one of the
/// third, in lexicographic order of their places, the last position running
/// fastest.
#[verifier::external_body]
pub(crate) fn cartesian_product(first: Vec<usize>, second: Vec<usize>, third: Vec<usize>) -> (triples:
    Vec<Vec<usize>>)
    requires
        first@.len() * second@.len() * third@.len() <= usize::MAX,
    ensures
        triples@.len() == first@.len() * second@.len() * third@.len(),
        forall|t: int|
            0 <= t < triples@.len() ==> (#[trigger] triples@[t])@ == seq![
                first@[(t / third@.len() as int) / second@.len() as int],
                second@[(t / third@.len() as int) % second@.len() as int],
                third@[t % third@.len() as int],
            ],
{
    vec![first, second, third].into_iter().multi_cartesian_product().collect()
}

/// The numbers from 0 up to `n`, without `n`.
fn indices(n: usize) -> (list: Vec<usize>)
    ensures
        list@.len() == n,
        forall|k: int| 0 <= k < n ==> #[trigger] list@[k] == k,
{
    let mut list: Vec<usize> = Vec::new();
    let mut k: usize = 0;
    while k < n
        invariant
            k <= n,
            list@.len() == k,
            forall|m: int| 0 <= m < k ==> #[trigger] list@[m] == m,
        decreases n - k,
    {
        list.push(k);
        k += 1;
    }
    list
}

/// The ordered triples of indices into a list of `n` things: the triple at
/// place `t` holds the three digits of `t` in base `n`.
pub fn index_triples(n: usize) -> (triples: Vec<Vec<usize>>)
    requires
        cube(n as int) <= usize::MAX,
    ensures
        triples@.len() == cube(n as int),
        forall|t: int|
            0 <= t < triples@.len() ==> (#[trigger] triples@[t])@ == seq![
                first(t, n as int) as usize,
                second(t, n as int) as usize,
                third(t, n as int) as usize,
            ],
{
    let one = indices(n);
    let two = indices(n);
    let three = indices(n);
    let triples = cartesian_product(one, two, three);
    proof {
        assert forall|t: int| 0 <= t < triples@.len() implies (#[trigger] triples@[t])@ == seq![
            first(t, n as int) as usize,
            second(t, n as int) as usize,
            third(t, n as int) as usize,
        ] by {
            lemma_triple_bounds(t, n as int);
        }
    }
    triples
}

} // verus!
