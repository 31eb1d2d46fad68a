//! Sums over finite sets of keys, and what the statistics need of them.

use vstd::prelude::*;

verus! {

/// The sum of `f` over the finite set `keys`.
pub open spec fn sum_over(keys: Set<u64>, f: spec_fn(u64) -> nat) -> nat
    decreases keys.len(),
    when keys.finite()
{
    if keys.len() == 0 {
        0
    } else {
        let key = keys.choose();
        f(key) + sum_over(keys.remove(key), f)
    }
}

/// The sum of `f` over the keys of `keys`, place by place.
pub open spec fn sum_along(keys: Seq<u64>, f: spec_fn(u64) -> nat) -> nat
    decreases keys.len(),
{
    if keys.len() == 0 {
        0
    } else {
        sum_along(keys.drop_last(), f) + f(keys.last())
    }
}

/// A sum over a set is the term of any one member and the sum over the rest.
pub proof fn sum_over_split(keys: Set<u64>, f: spec_fn(u64) -> nat, key: u64)
    requires
        keys.finite(),
        keys.contains(key),
    ensures
        sum_over(keys, f) == f(key) + sum_over(keys.remove(key), f),
    decreases keys.len(),
{
    let first = keys.choose();
    if first != key {
        sum_over_split(keys.remove(first), f, key);
        sum_over_split(keys.remove(key), f, first);
        assert(keys.remove(first).remove(key) =~= keys.remove(key).remove(first));
    }
}

/// Summing along a list without repetition gives the sum over the set of its
/// members, whatever the order.
pub proof fn sum_along_is_sum_over(keys: Seq<u64>, f: spec_fn(u64) -> nat)
    requires
        keys.no_duplicates(),
    ensures
        keys.to_set().finite(),
        sum_along(keys, f) == sum_over(keys.to_set(), f),
    decreases keys.len(),
{
    vstd::seq_lib::seq_to_set_is_finite(keys);
    if keys.len() == 0 {
        assert(keys.to_set() =~= Set::<u64>::empty());
    } else {
        let init = keys.drop_last();
        let last = keys.last();
        assert(init.no_duplicates());
        sum_along_is_sum_over(init, f);
        assert(keys.to_set().contains(last)) by {
            assert(keys[keys.len() - 1] == last);
        }
        assert(keys.to_set().remove(last) =~= init.to_set()) by {
            assert forall|k: u64|
                keys.to_set().remove(last).contains(k) <==> init.to_set().contains(k) by {
                if keys.to_set().remove(last).contains(k) {
                    let i = choose|i: int| 0 <= i < keys.len() && keys[i] == k;
                    assert(init[i] == k);
                }
                if init.to_set().contains(k) {
                    let i = choose|i: int| 0 <= i < init.len() && init[i] == k;
                    assert(keys[i] == k);
                    assert(keys[keys.len() - 1] == last);
                }
            }
        }
        sum_over_split(keys.to_set(), f, last);
    }
}

/// The sum over two finite sets without a common member is the sum of the
/// two sums.
pub proof fn sum_over_disjoint(a: Set<u64>, b: Set<u64>, f: spec_fn(u64) -> nat)
    requires
        a.finite(),
        b.finite(),
        a.disjoint(b),
    ensures
        sum_over(a.union(b), f) == sum_over(a, f) + sum_over(b, f),
    decreases b.len(),
{
    if b.len() == 0 {
        assert(a.union(b) =~= a);
    } else {
        let x = b.choose();
        assert(a.union(b).remove(x) =~= a.union(b.remove(x)));
        sum_over_split(a.union(b), f, x);
        sum_over_disjoint(a, b.remove(x), f);
    }
}

/// Sums of functions that agree on the set agree.
pub proof fn sum_over_agrees(keys: Set<u64>, f: spec_fn(u64) -> nat, h: spec_fn(u64) -> nat)
    requires
        keys.finite(),
        forall|key: u64| keys.contains(key) ==> f(key) == h(key),
    ensures
        sum_over(keys, f) == sum_over(keys, h),
    decreases keys.len(),
{
    if keys.len() > 0 {
        let x = keys.choose();
        sum_over_agrees(keys.remove(x), f, h);
        sum_over_split(keys, h, x);
    }
}

/// The sum of the smaller function is the smaller sum.
pub proof fn sum_over_le(keys: Set<u64>, f: spec_fn(u64) -> nat, h: spec_fn(u64) -> nat)
    requires
        keys.finite(),
        forall|key: u64| keys.contains(key) ==> f(key) <= h(key),
    ensures
        sum_over(keys, f) <= sum_over(keys, h),
    decreases keys.len(),
{
    if keys.len() > 0 {
        let x = keys.choose();
        sum_over_le(keys.remove(x), f, h);
        sum_over_split(keys, h, x);
    }
}

/// The sum over a part is at most the sum over the whole, and less by at
/// least the term of a member of the whole that the part lacks.
pub proof fn sum_over_part(part: Set<u64>, whole: Set<u64>, f: spec_fn(u64) -> nat)
    requires
        whole.finite(),
        part.subset_of(whole),
    ensures
        sum_over(part, f) <= sum_over(whole, f),
        forall|key: u64|
            whole.contains(key) && !part.contains(key) ==> sum_over(part, f) + #[trigger] f(key)
            <= sum_over(whole, f),
{
    vstd::set_lib::lemma_len_subset(part, whole);
    let rest = whole.difference(part);
    assert(part.union(rest) =~= whole);
    sum_over_disjoint(part, rest, f);
    assert forall|key: u64|
        whole.contains(key) && !part.contains(key) implies sum_over(part, f) + #[trigger] f(
        key,
    ) <= sum_over(whole, f) by {
        sum_over_split(rest, f, key);
    }
}

} // verus!
