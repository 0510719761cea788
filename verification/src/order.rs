//! Strict total orders and the lexicographic order that one induces on
//! sequences.

use vstd::prelude::*;

verus! {

/// `lt` is a strict total order: nothing comes before itself, the relation
/// is transitive, and of two different things one comes before the other.
pub open spec fn strict_total<T>(lt: spec_fn(T, T) -> bool) -> bool {
    &&& forall|a: T| !#[trigger] lt(a, a)
    &&& forall|a: T, b: T, c: T| #[trigger] lt(a, b) && #[trigger] lt(b, c) ==> lt(a, c)
    &&& forall|a: T, b: T| a != b ==> #[trigger] lt(a, b) || lt(b, a)
}

/// `a` and `b` agree on their first `k` items.
pub open spec fn agree_upto<T>(a: Seq<T>, b: Seq<T>, k: int) -> bool {
    &&& 0 <= k <= a.len()
    &&& k <= b.len()
    &&& forall|i: int| 0 <= i < k ==> a[i] == b[i]
}

/// `a` comes before `b` and `k` is the place that decides it: either `a` ends
/// there and `b` goes on, or both go on and `a` holds the smaller item.
pub open spec fn decided_at<T>(lt: spec_fn(T, T) -> bool, a: Seq<T>, b: Seq<T>, k: int) -> bool {
    &&& agree_upto(a, b, k)
    &&& (k == a.len() && k < b.len()) || (k < a.len() && k < b.len() && lt(a[k], b[k]))
}

/// The lexicographic order on sequences that `lt` induces.
pub open spec fn lex_lt<T>(lt: spec_fn(T, T) -> bool, a: Seq<T>, b: Seq<T>) -> bool {
    exists|k: int| decided_at(lt, a, b, k)
}

pub proof fn lemma_lex_irreflexive<T>(lt: spec_fn(T, T) -> bool, a: Seq<T>)
    requires
        strict_total(lt),
    ensures
        !lex_lt(lt, a, a),
{
    assert forall|k: int| !decided_at(lt, a, a, k) by {
        if 0 <= k < a.len() {
            assert(!lt(a[k], a[k]));
        }
    }
}

pub proof fn lemma_lex_transitive<T>(lt: spec_fn(T, T) -> bool, a: Seq<T>, b: Seq<T>, c: Seq<T>)
    requires
        strict_total(lt),
        lex_lt(lt, a, b),
        lex_lt(lt, b, c),
    ensures
        lex_lt(lt, a, c),
{
    let k1 = choose|k: int| decided_at(lt, a, b, k);
    let k2 = choose|k: int| decided_at(lt, b, c, k);
    if k1 < k2 {
        assert(decided_at(lt, a, c, k1));
    } else if k2 < k1 {
        assert(decided_at(lt, a, c, k2));
    } else {
        if k1 < a.len() && k1 < b.len() && k1 < c.len() {
            assert(lt(a[k1], b[k1]) && lt(b[k1], c[k1]));
        }
        assert(decided_at(lt, a, c, k1));
    }
}

/// Of two different sequences one comes before the other.
pub proof fn lemma_lex_connected<T>(lt: spec_fn(T, T) -> bool, a: Seq<T>, b: Seq<T>)
    requires
        strict_total(lt),
        a != b,
    ensures
        lex_lt(lt, a, b) || lex_lt(lt, b, a),
{
    lemma_first_difference(lt, a, b, 0);
}

proof fn lemma_first_difference<T>(lt: spec_fn(T, T) -> bool, a: Seq<T>, b: Seq<T>, k: int)
    requires
        strict_total(lt),
        a != b,
        agree_upto(a, b, k),
    ensures
        lex_lt(lt, a, b) || lex_lt(lt, b, a),
    decreases a.len() - k,
{
    if k == a.len() && k == b.len() {
        assert(a =~= b);
    } else if k == a.len() {
        assert(decided_at(lt, a, b, k));
    } else if k == b.len() {
        assert(agree_upto(b, a, k));
        assert(decided_at(lt, b, a, k));
    } else if a[k] == b[k] {
        lemma_first_difference(lt, a, b, k + 1);
    } else if lt(a[k], b[k]) {
        assert(decided_at(lt, a, b, k));
    } else {
        assert(lt(b[k], a[k]));
        assert(agree_upto(b, a, k));
        assert(decided_at(lt, b, a, k));
    }
}

/// The lexicographic order that a strict total order induces is a strict
/// total order.
pub proof fn lemma_lex_strict_total<T>(lt: spec_fn(T, T) -> bool)
    requires
        strict_total(lt),
    ensures
        strict_total(|a: Seq<T>, b: Seq<T>| lex_lt(lt, a, b)),
{
    let lex = |a: Seq<T>, b: Seq<T>| lex_lt(lt, a, b);
    assert forall|a: Seq<T>| !#[trigger] lex(a, a) by {
        lemma_lex_irreflexive(lt, a);
    }
    assert forall|a: Seq<T>, b: Seq<T>, c: Seq<T>| #[trigger] lex(a, b) && #[trigger] lex(b, c) implies lex(
        a,
        c,
    ) by {
        lemma_lex_transitive(lt, a, b, c);
    }
    assert forall|a: Seq<T>, b: Seq<T>| a != b implies #[trigger] lex(a, b) || lex(b, a) by {
        lemma_lex_connected(lt, a, b);
    }
}

/// Where both sequences go on after a common prefix of `k` items and differ
/// there, that place alone decides which comes first.
pub proof fn lemma_lex_differ_at<T>(lt: spec_fn(T, T) -> bool, a: Seq<T>, b: Seq<T>, k: int)
    requires
        strict_total(lt),
        agree_upto(a, b, k),
        k < a.len(),
        k < b.len(),
        a[k] != b[k],
    ensures
        lex_lt(lt, a, b) == lt(a[k], b[k]),
{
    if lt(a[k], b[k]) {
        assert(decided_at(lt, a, b, k));
    } else {
        assert forall|j: int| !decided_at(lt, a, b, j) by {
            if decided_at(lt, a, b, j) {
                if j > k {
                    assert(a[k] == b[k]);
                } else if j < k {
                    assert(a[j] == b[j]);
                    assert(!lt(a[j], a[j]));
                }
            }
        }
    }
}

/// Where one sequence ends after a common prefix of `k` items, the shorter
/// one comes first.
pub proof fn lemma_lex_prefix<T>(lt: spec_fn(T, T) -> bool, a: Seq<T>, b: Seq<T>, k: int)
    requires
        strict_total(lt),
        agree_upto(a, b, k),
        k == a.len() || k == b.len(),
    ensures
        lex_lt(lt, a, b) == (a.len() < b.len()),
{
    if a.len() < b.len() {
        assert(decided_at(lt, a, b, k));
    } else {
        assert forall|j: int| !decided_at(lt, a, b, j) by {
            if decided_at(lt, a, b, j) {
                if j < k {
                    assert(a[j] == b[j]);
                    assert(!lt(a[j], a[j]));
                }
            }
        }
    }
}

} // verus!
