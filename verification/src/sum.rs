//! Sums over the entries of a map.

use crate::order::Key;
use crate::ordered_map;
use vstd::prelude::*;

verus! {

/// The sum of `weight` over the entries of a finite map.
pub open spec fn sum_over<M, V>(m: Map<M, V>, weight: spec_fn(M, V) -> nat) -> nat
    decreases m.dom().len(),
{
    if m.dom().finite() && m.dom().len() > 0 {
        let k = m.dom().choose();
        weight(k, m[k]) + sum_over(m.remove(k), weight)
    } else {
        0
    }
}

/// The sum of `weight` over the pairs of a listing.
pub open spec fn sum_along<M, V>(s: Seq<(M, V)>, weight: spec_fn(M, V) -> nat) -> nat
    decreases s.len(),
{
    if s.len() == 0 {
        0
    } else {
        sum_along(s.drop_last(), weight) + weight(s.last().0, s.last().1)
    }
}

/// Any entry can be taken out of a sum.
pub proof fn lemma_sum_remove<M, V>(m: Map<M, V>, k: M, weight: spec_fn(M, V) -> nat)
    requires
        m.dom().finite(),
        m.contains_key(k),
    ensures
        sum_over(m, weight) == weight(k, m[k]) + sum_over(m.remove(k), weight),
    decreases m.dom().len(),
{
    let first = m.dom().choose();
    if first != k {
        lemma_sum_remove(m.remove(first), k, weight);
        lemma_sum_remove(m.remove(k), first, weight);
        assert(m.remove(first).remove(k) =~= m.remove(k).remove(first));
    }
}

/// Sums add up.
pub proof fn lemma_sum_of_sums<M, V>(
    m: Map<M, V>,
    a: spec_fn(M, V) -> nat,
    b: spec_fn(M, V) -> nat,
    both: spec_fn(M, V) -> nat,
)
    requires
        m.dom().finite(),
        forall|k: M| #[trigger] m.contains_key(k) ==> both(k, m[k]) == a(k, m[k]) + b(k, m[k]),
    ensures
        sum_over(m, both) == sum_over(m, a) + sum_over(m, b),
    decreases m.dom().len(),
{
    if m.dom().len() > 0 {
        let k = m.dom().choose();
        assert(m.contains_key(k));
        assert forall|j: M| #[trigger] m.remove(k).contains_key(j) implies both(j, m.remove(k)[j])
            == a(j, m.remove(k)[j]) + b(j, m.remove(k)[j]) by {
            assert(m.contains_key(j));
        }
        lemma_sum_of_sums(m.remove(k), a, b, both);
    }
}

/// The sum over a map is the sum along its listing.
pub proof fn lemma_sum_along<K: Key, V>(
    s: Seq<(K::Model, V)>,
    weight: spec_fn(K::Model, V) -> nat,
)
    requires
        ordered_map::strictly_ordered::<K, V>(s),
    ensures
        sum_over(ordered_map::map_of(s), weight) == sum_along(s, weight),
    decreases s.len(),
{
    let m = ordered_map::map_of(s);
    ordered_map::lemma_map_of::<K, V>(s);
    if s.len() > 0 {
        let rest = s.drop_last();
        assert(ordered_map::strictly_ordered::<K, V>(rest));
        ordered_map::lemma_map_of::<K, V>(rest);
        lemma_sum_along::<K, V>(rest, weight);
        let k = s.last().0;
        assert(m.contains_key(s[s.len() - 1].0));
        lemma_sum_remove(m, k, weight);
        assert(m.remove(k) =~= ordered_map::map_of(rest)) by {
            assert forall|j: K::Model| #[trigger] m.remove(k).contains_key(
                j,
            ) implies ordered_map::map_of(rest).contains_key(j) && ordered_map::map_of(rest)[j]
                == m[j] by {
                assert(m.contains_key(j));
                let i = choose|i: int| 0 <= i < s.len() && (#[trigger] s[i]).0 == j;
                assert(rest[i] == s[i]);
            }
            assert forall|j: K::Model| #[trigger] ordered_map::map_of(rest).contains_key(
                j,
            ) implies m.remove(k).contains_key(j) by {
                let i = choose|i: int| 0 <= i < rest.len() && (#[trigger] rest[i]).0 == j;
                assert(s[i] == rest[i]);
                assert(s[i].0 != s[s.len() - 1].0);
            }
        }
    }
}

} // verus!
