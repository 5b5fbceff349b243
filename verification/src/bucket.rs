//! The bucket-partitioned backing store of an elastic hash table: a fixed
//! capacity is divided into contiguous buckets whose sizes follow the halving
//! layout, all slots living in one shared backing vector.

use crate::encoding::{
    bit_len, bit_len_exec, encode_marked, lemma_bit_len_le, lemma_marked_bounds, phi_spec,
    pow2_u128,
};
use crate::hash::{murmur3_hash, probe_of, MURMUR_SEED_1, MURMUR_SEED_2};
use crate::layout::{
    bucket_sizes, bucket_sizes_from, halved, lemma_bucket_sizes_positive, lemma_bucket_sizes_sum,
    lemma_len_le_sum, lemma_offset_at_le_total, lemma_offset_at_succ, lemma_seq_sum_push,
    offset_at, seq_sum,
};
use vstd::arithmetic::power2::{lemma_pow2_strictly_increases, pow2};
use vstd::prelude::*;
use vstd::slice::slice_subrange;

verus! {

/// Construction was asked for a table that cannot exist: a capacity of zero.
/// Fatal and not retryable.
#[derive(Clone, Copy, Debug, PartialEq, Eq, Structural)]
pub struct ConfigurationError;

/// The slot-addressing core of an elastic hash table: one backing store of
/// `size` slots, partitioned into buckets per the halving layout, with the
/// start offset of each bucket recorded.
#[derive(Debug)]
pub struct ElasticHashing {
    size: usize,
    data: Vec<i32>,
    bucket_offsets: Vec<usize>,
}

impl ElasticHashing {
    /// The backing store's slots, bucket after bucket.
    pub closed spec fn slots(self) -> Seq<i32> {
        self.data@
    }

    /// The recorded start offsets, one per bucket.
    pub closed spec fn offsets(self) -> Seq<usize> {
        self.bucket_offsets@
    }

    /// The table's total capacity.
    pub closed spec fn capacity(self) -> nat {
        self.size as nat
    }

    /// The bucket sizes this table's capacity dictates.
    pub open spec fn sizes(self) -> Seq<nat> {
        bucket_sizes(self.capacity())
    }

    /// How many buckets the layout has.
    pub open spec fn num_buckets(self) -> nat {
        self.sizes().len()
    }

    /// Well-formedness: the backing store holds exactly `capacity` slots and
    /// the recorded offsets are the prefix sums of the layout's sizes.
    pub open spec fn wf(self) -> bool {
        &&& self.capacity() >= 1
        &&& self.slots().len() == self.capacity()
        &&& self.offsets().len() == self.num_buckets()
        &&& self.num_buckets() <= self.capacity()
        &&& forall|i: int|
            0 <= i < self.offsets().len() ==> (#[trigger] self.offsets()[i]) as nat == offset_at(
                self.sizes(),
                i,
            )
    }

    /// The slots of bucket `i`, as a segment of the backing store.
    pub open spec fn bucket_seq(self, i: int) -> Seq<i32> {
        self.slots().subrange(
            offset_at(self.sizes(), i) as int,
            offset_at(self.sizes(), i) as int + self.sizes()[i] as int,
        )
    }

    /// Builds a table of `size` slots, all empty, partitioned per the halving
    /// layout.
    pub fn new(size: usize) -> (r: ElasticHashing)
        requires
            size >= 1,
        ensures
            r.wf(),
            r.capacity() == size,
            r.slots() == Seq::new(size as nat, |i: int| 0i32),
    {
        let mut data: Vec<i32> = Vec::new();
        let mut offsets: Vec<usize> = Vec::new();
        let mut current: usize = size / 2 + size % 2;
        let mut remaining: usize = size;
        let ghost mut built: Seq<nat> = Seq::empty();
        proof {
            assert(built + bucket_sizes_from(current as nat, remaining as nat)
                =~= bucket_sizes_from(current as nat, remaining as nat));
        }
        while remaining > 0
            invariant
                size >= 1,
                current >= 1,
                data@.len() + remaining == size,
                forall|i: int| 0 <= i < data@.len() ==> data@[i] == 0i32,
                offsets@.len() == built.len(),
                forall|i: int|
                    0 <= i < built.len() ==> (#[trigger] offsets@[i]) as nat == offset_at(built, i),
                seq_sum(built) == data@.len(),
                bucket_sizes(size as nat) == built + bucket_sizes_from(
                    current as nat,
                    remaining as nat,
                ),
            decreases remaining,
        {
            let b: usize = if current <= remaining {
                current
            } else {
                remaining
            };
            proof {
                assert(bucket_sizes_from(current as nat, remaining as nat) == seq![b as nat]
                    + bucket_sizes_from(halved(current as nat), (remaining - b) as nat));
                assert(built + bucket_sizes_from(current as nat, remaining as nat) =~= built.push(
                    b as nat,
                ) + bucket_sizes_from(halved(current as nat), (remaining - b) as nat));
                lemma_seq_sum_push(built, b as nat);
                assert forall|i: int| 0 <= i <= built.len() implies offset_at(
                    built.push(b as nat),
                    i,
                ) == offset_at(built, i) by {
                    assert(built.push(b as nat).take(i) =~= built.take(i));
                }
                assert(built.push(b as nat).take(built.len() as int) =~= built);
            }
            offsets.push(data.len());
            proof {
                built = built.push(b as nat);
            }
            let mut j: usize = 0;
            while j < b
                invariant
                    j <= b,
                    b <= remaining,
                    remaining + (data@.len() - j) == size,
                    forall|i: int| 0 <= i < data@.len() ==> data@[i] == 0i32,
                decreases b - j,
            {
                data.push(0);
                j = j + 1;
            }
            remaining = remaining - b;
            current = current / 2 + current % 2;
        }
        proof {
            assert(bucket_sizes_from(current as nat, 0) =~= Seq::<nat>::empty());
            assert(built + Seq::<nat>::empty() =~= built);
            lemma_bucket_sizes_positive(size as nat);
            lemma_len_le_sum(built);
            assert(data@ =~= Seq::new(size as nat, |i: int| 0i32));
        }
        ElasticHashing { size, data, bucket_offsets: offsets }
    }

    /// Checked construction: a table for any positive capacity, and a
    /// `ConfigurationError` exactly when the capacity is zero.
    pub fn construct(capacity: usize) -> (r: Result<ElasticHashing, ConfigurationError>)
        ensures
            capacity == 0 <==> r is Err,
            r is Err ==> r == Result::<ElasticHashing, ConfigurationError>::Err(
                ConfigurationError,
            ),
            r is Ok ==> {
                &&& r->Ok_0.wf()
                &&& r->Ok_0.capacity() == capacity
                &&& r->Ok_0.slots() == Seq::new(capacity as nat, |i: int| 0i32)
            },
    {
        if capacity == 0 {
            Err(ConfigurationError)
        } else {
            Ok(ElasticHashing::new(capacity))
        }
    }

    /// The table's total capacity: how many slots the backing store holds.
    pub fn size(&self) -> (r: usize)
        ensures
            r as nat == self.capacity(),
    {
        self.size
    }

    /// How many buckets the table has.
    pub fn bucket_count(&self) -> (r: usize)
        requires
            self.wf(),
        ensures
            r as nat == self.num_buckets(),
    {
        self.bucket_offsets.len()
    }

    /// The slots of bucket `bucket_idx`, read-only; an empty view for an
    /// out-of-range index.
    pub fn get_bucket(&self, bucket_idx: usize) -> (r: &[i32])
        requires
            self.wf(),
        ensures
            bucket_idx < self.num_buckets() ==> r@ == self.bucket_seq(bucket_idx as int),
            bucket_idx >= self.num_buckets() ==> r@.len() == 0,
    {
        if bucket_idx >= self.bucket_offsets.len() {
            return slice_subrange(self.data.as_slice(), 0, 0);
        }
        let start = self.bucket_offsets[bucket_idx];
        let end = if bucket_idx + 1 < self.bucket_offsets.len() {
            self.bucket_offsets[bucket_idx + 1]
        } else {
            self.data.len()
        };
        proof {
            self.lemma_bucket_bounds(bucket_idx as int);
        }
        slice_subrange(self.data.as_slice(), start, end)
    }

    /// The slots of bucket `bucket_idx`, writable; an empty view for an
    /// out-of-range index. The rest of the backing store, the offsets and the
    /// capacity are untouched, so any in-place writes through the view leave
    /// the table well-formed.
    pub fn get_bucket_mut(&mut self, bucket_idx: usize) -> (r: &mut [i32])
        requires
            old(self).wf(),
        ensures
            bucket_idx < old(self).num_buckets() ==> {
                &&& r@ == old(self).bucket_seq(bucket_idx as int)
                &&& final(self).slots() == old(self).slots().subrange(
                    0,
                    offset_at(old(self).sizes(), bucket_idx as int) as int,
                ) + final(r)@ + old(self).slots().subrange(
                    offset_at(old(self).sizes(), bucket_idx as int) as int + old(
                        self,
                    ).sizes()[bucket_idx as int] as int,
                    old(self).slots().len() as int,
                )
            },
            bucket_idx >= old(self).num_buckets() ==> {
                &&& r@.len() == 0
                &&& final(self).slots() == old(self).slots() + final(r)@
            },
            final(self).offsets() == old(self).offsets(),
            final(self).capacity() == old(self).capacity(),
            final(r)@.len() == r@.len() ==> final(self).wf(),
    {
        let data_len = self.data.len();
        if bucket_idx >= self.bucket_offsets.len() {
            let s = self.data.as_mut_slice();
            let (_front, empty_tail) = s.split_at_mut(data_len);
            return empty_tail;
        }
        let start = self.bucket_offsets[bucket_idx];
        let end = if bucket_idx + 1 < self.bucket_offsets.len() {
            self.bucket_offsets[bucket_idx + 1]
        } else {
            data_len
        };
        proof {
            self.lemma_bucket_bounds(bucket_idx as int);
        }
        let s = self.data.as_mut_slice();
        let (_front, rest) = s.split_at_mut(start);
        let ghost rest_snap: Seq<i32> = rest@;
        let (mid, _back) = rest.split_at_mut(end - start);
        proof {
            assert(rest_snap.subrange(0, end - start) =~= old(self).slots().subrange(
                start as int,
                end as int,
            ));
            assert(rest_snap.subrange(end - start, rest_snap.len() as int) =~= old(
                self,
            ).slots().subrange(end as int, old(self).slots().len() as int));
        }
        mid
    }

    /// The pairing function: each effective bit of `b`, most significant
    /// first, behind a `1` marker, then a `0` separator, then the effective
    /// bits of `a` plain. Order-sensitive and pure.
    pub fn phi(a: u32, b: u32) -> (r: u128)
        ensures
            r as nat == phi_spec(a as nat, b as nat),
    {
        let m = encode_marked(b);
        let n = bit_len_exec(a);
        let p = pow2_u128(n);
        proof {
            assert(pow2(32) == 0x100000000 && pow2(64) == 0x10000000000000000) by {
                vstd::arithmetic::power2::lemma2_to64();
            }
            lemma_marked_bounds(b as nat);
            lemma_bit_len_le(b as nat, 32);
            lemma_bit_len_le(a as nat, 32);
            if 2 * bit_len(b as nat) < 64 {
                lemma_pow2_strictly_increases(2 * bit_len(b as nat), 64);
            }
            if bit_len(a as nat) < 32 {
                lemma_pow2_strictly_increases(bit_len(a as nat), 32);
            }
            assert((m as nat) * 2 * (p as nat) < 0x2000000000000000000000000 && (m as nat) * 2 * (
            p as nat) + (a as nat) < 0x2000000000000000000000000) by (nonlinear_arith)
                requires
                    (m as nat) < 0x10000000000000000,
                    (p as nat) <= 0x100000000,
                    (a as nat) < 0x100000000,
            ;
        }
        m * 2 * p + (a as u128)
    }

    /// The probe value of `key`: two murmur3 hash values of its bytes, under
    /// two fixed distinct seeds, combined by the pairing function.
    /// Deterministic: the result is a function of the key alone.
    pub fn hash_key(key: i32) -> (r: u128)
        ensures
            r as nat == probe_of(key),
    {
        let h1 = murmur3_hash(key, MURMUR_SEED_1);
        let h2 = murmur3_hash(key, MURMUR_SEED_2);
        Self::phi(h1, h2)
    }

    /// For an in-range bucket, its end offset is its start plus its size, and
    /// both lie within the backing store; the last bucket ends at the store's
    /// end.
    proof fn lemma_bucket_bounds(self, i: int)
        requires
            self.wf(),
            0 <= i < self.num_buckets(),
        ensures
            offset_at(self.sizes(), i) + self.sizes()[i] == offset_at(self.sizes(), i + 1),
            offset_at(self.sizes(), i + 1) <= self.capacity(),
            i + 1 < self.num_buckets() ==> self.offsets()[i + 1] as nat == offset_at(
                self.sizes(),
                i,
            ) + self.sizes()[i],
            i + 1 == self.num_buckets() ==> offset_at(self.sizes(), i) + self.sizes()[i]
                == self.capacity(),
    {
        lemma_offset_at_succ(self.sizes(), i);
        lemma_offset_at_le_total(self.sizes(), i + 1);
        lemma_bucket_sizes_sum(self.capacity());
        if i + 1 == self.num_buckets() {
            assert(self.sizes().take(i + 1) =~= self.sizes());
        }
    }
}

} // verus!
