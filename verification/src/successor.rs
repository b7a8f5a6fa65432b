//! The rule of the ring: a hash is served by the first position at or after
//! it, and by the smallest position of all when there is none.

use vstd::prelude::*;

verus! {

/// `k` is the smallest member of `keys`.
pub open spec fn is_least(keys: Set<u64>, k: u64) -> bool {
    &&& keys.contains(k)
    &&& forall|j: u64| keys.contains(j) ==> k <= j
}

/// `k` is the position among `keys` that serves the hash `h`: the smallest
/// one that is at least `h`, or, where every position is below `h`, the
/// smallest one of all.
pub open spec fn serves(keys: Set<u64>, h: u64, k: u64) -> bool {
    &&& keys.contains(k)
    &&& if h <= k {
        forall|j: u64| keys.contains(j) && h <= j ==> k <= j
    } else {
        forall|j: u64| keys.contains(j) ==> k <= j && j < h
    }
}

/// The position among `keys` that serves the hash `h`.
pub open spec fn successor(keys: Set<u64>, h: u64) -> u64 {
    choose|k: u64| serves(keys, h, k)
}

/// At most one position serves a hash.
pub proof fn lemma_serves_unique(keys: Set<u64>, h: u64, k1: u64, k2: u64)
    requires
        serves(keys, h, k1),
        serves(keys, h, k2),
    ensures
        k1 == k2,
{
}

/// A position that serves a hash is the successor of that hash.
pub proof fn lemma_serves_is_successor(keys: Set<u64>, h: u64, k: u64)
    requires
        serves(keys, h, k),
    ensures
        successor(keys, h) == k,
{
    lemma_serves_unique(keys, h, k, successor(keys, h));
}

/// A finite set of positions that is not empty has a smallest member.
pub proof fn lemma_least_exists(keys: Set<u64>)
    requires
        keys.finite(),
        !keys.is_empty(),
    ensures
        exists|k: u64| is_least(keys, k),
    decreases keys.len(),
{
    let x = keys.choose();
    let rest = keys.remove(x);
    if rest.is_empty() {
        assert forall|j: u64| keys.contains(j) implies x <= j by {
            if j != x {
                assert(rest.contains(j));
            }
        }
        assert(is_least(keys, x));
    } else {
        lemma_least_exists(rest);
        let m = choose|k: u64| is_least(rest, k);
        let least = if x <= m { x } else { m };
        assert forall|j: u64| keys.contains(j) implies least <= j by {
            if j != x {
                assert(rest.contains(j));
            }
        }
        assert(is_least(keys, least));
    }
}

/// On a finite set of positions that is not empty, every hash is served.
pub proof fn lemma_successor_serves(keys: Set<u64>, h: u64)
    requires
        keys.finite(),
        !keys.is_empty(),
    ensures
        serves(keys, h, successor(keys, h)),
{
    let upper = keys.filter(|k: u64| h <= k);
    if upper.is_empty() {
        lemma_least_exists(keys);
        let m = choose|k: u64| is_least(keys, k);
        assert forall|j: u64| keys.contains(j) implies m <= j && j < h by {
            if h <= j {
                assert(upper.contains(j));
            }
        }
        assert(serves(keys, h, m));
    } else {
        keys.lemma_len_filter(|k: u64| h <= k);
        lemma_least_exists(upper);
        let m = choose|k: u64| is_least(upper, k);
        assert forall|j: u64| keys.contains(j) && h <= j implies m <= j by {
            assert(upper.contains(j));
        }
        assert(serves(keys, h, m));
    }
}

/// A position that serves a hash among some positions still serves it among
/// fewer of them, as long as it is one of those.
pub proof fn lemma_serves_among_fewer(keys: Set<u64>, fewer: Set<u64>, h: u64, k: u64)
    requires
        serves(keys, h, k),
        fewer.subset_of(keys),
        fewer.contains(k),
    ensures
        serves(fewer, h, k),
{
}

/// A hash that lies beyond every position is served by the smallest one.
pub proof fn lemma_successor_wraps(keys: Set<u64>, h: u64)
    requires
        keys.finite(),
        !keys.is_empty(),
        forall|k: u64| keys.contains(k) ==> k < h,
    ensures
        is_least(keys, successor(keys, h)),
{
    lemma_successor_serves(keys, h);
}

/// A hash at or below some position is served by the smallest position that
/// is not below it.
pub proof fn lemma_successor_is_next(keys: Set<u64>, h: u64)
    requires
        keys.finite(),
        exists|k: u64| keys.contains(k) && h <= k,
    ensures
        keys.contains(successor(keys, h)),
        h <= successor(keys, h),
        forall|j: u64| keys.contains(j) && h <= j ==> successor(keys, h) <= j,
{
    lemma_successor_serves(keys, h);
}

} // verus!
