//! The halving bucket layout: a capacity is split into regions whose sizes
//! start at half the capacity (rounded up) and halve, rounding up, at each
//! step, the last region absorbing whatever remains so that the sizes always
//! sum to the capacity exactly.

use vstd::prelude::*;

verus! {

/// Half of `c`, rounded up.
pub open spec fn halved(c: nat) -> nat {
    (c + 1) / 2
}

/// The region sizes produced from a current proposed size and a remaining
/// capacity: each step takes the proposed size, clamped to what remains, and
/// halves the proposal (rounding up) for the next step.
pub open spec fn bucket_sizes_from(current: nat, remaining: nat) -> Seq<nat>
    decreases remaining,
{
    if remaining == 0 {
        Seq::empty()
    } else {
        let b: nat = if 0 < current <= remaining {
            current
        } else {
            remaining
        };
        seq![b] + bucket_sizes_from(halved(current), (remaining - b) as nat)
    }
}

/// The bucket sizes for a table of capacity `n`.
pub open spec fn bucket_sizes(n: nat) -> Seq<nat> {
    bucket_sizes_from(halved(n), n)
}

/// The sum of a sequence of sizes.
pub open spec fn seq_sum(s: Seq<nat>) -> nat
    decreases s.len(),
{
    if s.len() == 0 {
        0
    } else {
        s[0] + seq_sum(s.drop_first())
    }
}

/// Start offset of bucket `i`: the sum of the sizes before it.
pub open spec fn offset_at(sizes: Seq<nat>, i: int) -> nat {
    seq_sum(sizes.take(i))
}

pub proof fn lemma_seq_sum_push(s: Seq<nat>, x: nat)
    ensures
        seq_sum(s.push(x)) == seq_sum(s) + x,
    decreases s.len(),
{
    assert(s.push(x).len() == s.len() + 1);
    assert(seq_sum(s.push(x)) == s.push(x)[0] + seq_sum(s.push(x).drop_first()));
    if s.len() == 0 {
        assert(s.push(x).drop_first() =~= Seq::<nat>::empty());
        assert(seq_sum(Seq::<nat>::empty()) == 0);
        assert(s.push(x)[0] == x);
    } else {
        assert(s.push(x).drop_first() =~= s.drop_first().push(x));
        assert(s.push(x)[0] == s[0]);
        lemma_seq_sum_push(s.drop_first(), x);
    }
}

/// Prefix sums grow by exactly the size they pass.
pub proof fn lemma_offset_at_succ(sizes: Seq<nat>, i: int)
    requires
        0 <= i < sizes.len(),
    ensures
        offset_at(sizes, i + 1) == offset_at(sizes, i) + sizes[i],
{
    assert(sizes.take(i + 1) =~= sizes.take(i).push(sizes[i]));
    lemma_seq_sum_push(sizes.take(i), sizes[i]);
}

/// No prefix sums to more than the whole.
pub proof fn lemma_offset_at_le_total(sizes: Seq<nat>, i: int)
    requires
        0 <= i <= sizes.len(),
    ensures
        offset_at(sizes, i) <= seq_sum(sizes),
    decreases sizes.len() - i,
{
    if i == sizes.len() {
        assert(sizes.take(i) =~= sizes);
    } else {
        lemma_offset_at_succ(sizes, i);
        lemma_offset_at_le_total(sizes, i + 1);
    }
}

proof fn lemma_bucket_sizes_from_sum(current: nat, remaining: nat)
    ensures
        seq_sum(bucket_sizes_from(current, remaining)) == remaining,
    decreases remaining,
{
    if remaining > 0 {
        let b: nat = if 0 < current <= remaining {
            current
        } else {
            remaining
        };
        lemma_bucket_sizes_from_sum(halved(current), (remaining - b) as nat);
        let s = bucket_sizes_from(current, remaining);
        assert(s.drop_first() =~= bucket_sizes_from(halved(current), (remaining - b) as nat));
    }
}

/// For every capacity, the bucket sizes sum to the capacity exactly.
pub proof fn lemma_bucket_sizes_sum(n: nat)
    ensures
        seq_sum(bucket_sizes(n)) == n,
{
    lemma_bucket_sizes_from_sum(halved(n), n);
}

proof fn lemma_bucket_sizes_from_positive(current: nat, remaining: nat)
    ensures
        forall|i: int|
            0 <= i < bucket_sizes_from(current, remaining).len() ==> bucket_sizes_from(
                current,
                remaining,
            )[i] >= 1,
    decreases remaining,
{
    if remaining > 0 {
        let b: nat = if 0 < current <= remaining {
            current
        } else {
            remaining
        };
        lemma_bucket_sizes_from_positive(halved(current), (remaining - b) as nat);
        let s = bucket_sizes_from(current, remaining);
        let rest = bucket_sizes_from(halved(current), (remaining - b) as nat);
        assert forall|i: int| 0 <= i < s.len() implies s[i] >= 1 by {
            if i > 0 {
                assert(s[i] == rest[i - 1]);
            }
        }
    }
}

/// Every bucket holds at least one slot.
pub proof fn lemma_bucket_sizes_positive(n: nat)
    ensures
        forall|i: int| 0 <= i < bucket_sizes(n).len() ==> bucket_sizes(n)[i] >= 1,
{
    lemma_bucket_sizes_from_positive(halved(n), n);
}

/// A sequence of positive sizes has no more entries than its sum.
pub proof fn lemma_len_le_sum(s: Seq<nat>)
    requires
        forall|i: int| 0 <= i < s.len() ==> s[i] >= 1,
    ensures
        s.len() <= seq_sum(s),
    decreases s.len(),
{
    if s.len() > 0 {
        assert(forall|i: int| 0 <= i < s.drop_first().len() ==> s.drop_first()[i] >= 1);
        lemma_len_le_sum(s.drop_first());
    }
}

proof fn lemma_bucket_sizes_from_nonincreasing(current: nat, remaining: nat)
    ensures
        forall|i: int| #![trigger bucket_sizes_from(current, remaining)[i]]
            0 <= i && i + 1 < bucket_sizes_from(current, remaining).len() ==> bucket_sizes_from(
                current,
                remaining,
            )[i + 1] <= bucket_sizes_from(current, remaining)[i],
    decreases remaining,
{
    if remaining > 0 {
        let b: nat = if 0 < current <= remaining {
            current
        } else {
            remaining
        };
        let s = bucket_sizes_from(current, remaining);
        let rest = bucket_sizes_from(halved(current), (remaining - b) as nat);
        lemma_bucket_sizes_from_nonincreasing(halved(current), (remaining - b) as nat);
        assert forall|i: int| #![trigger s[i]] 0 <= i && i + 1 < s.len() implies s[i + 1]
            <= s[i] by {
            if i == 0 {
                assert(s[1] == rest[0]);
            } else {
                assert(s[i] == rest[i - 1] && s[i + 1] == rest[i]);
            }
        }
    }
}

/// Bucket sizes never grow from one bucket to the next.
pub proof fn lemma_bucket_sizes_nonincreasing(n: nat)
    ensures
        forall|i: int| #![trigger bucket_sizes(n)[i]]
            0 <= i && i + 1 < bucket_sizes(n).len() ==> bucket_sizes(n)[i + 1] <= bucket_sizes(
                n,
            )[i],
{
    lemma_bucket_sizes_from_nonincreasing(halved(n), n);
}

} // verus!
