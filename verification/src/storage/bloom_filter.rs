use vstd::prelude::*;
use vstd::wrapping::u64_specs;
use twox_hash::XxHash64;
use crate::bits::{bit_is_set, with_bit_set, lemma_with_bit_set};

verus! {

pub const BLOOM_FILTER_SIZE: usize = 150;

/// The number of bits the filter can address: 8 per byte.
pub const BLOOM_FILTER_BITS: usize = 1200;

pub struct BloomFilter {
    ///    Bloom filter size depends on:
    ///	n = 1000 (number of elements in SSTable segment)
    /// 	p = False positive probability (e.g., 1%)
    /// 	m = Number of bits needed
    /// 	k = Number of hash functions
    /// m = -(n * ln(p)) / (ln(2))²
    /// k = (m / n) * ln(2)
    /// For n = 1000 and p = 1% (0.01):
    /// m ≈ -(1000 * ln(0.01)) / (ln(2))²
    ///   ≈ (1000 * 4.6) / 0.48
    ///   ≈ 9580 bits (≈ 1197 bytes)
    /// k ≈ (9580 / 1000) * ln(2)
    /// ≈ 6.64  (round to **7 hash functions**)
    pub bits: [u8; BLOOM_FILTER_SIZE],
}

/// What xxHash64 gives for the seed and the bytes.
pub uninterp spec fn xxhash64(seed: u64, data: Seq<u8>) -> u64;

/// Calls `twox_hash::XxHash64::oneshot`, whose result is taken to be the xxHash64 of
/// the sixteen bytes with the seed, named `xxhash64`.
#[verifier::external_body]
fn xxhash64_oneshot(seed: u64, data: &[u8; 16]) -> (hash: u64)
    ensures
        hash == xxhash64(seed, data@),
{
    XxHash64::oneshot(seed, data)
}

/// The seven bit positions derived from one base hash, each reduced modulo `filter_size`.
pub open spec fn bloom_indices(base_hash: u64, filter_size: usize) -> Seq<usize> {
    seq![
        ((base_hash >> 32u64) as usize) % filter_size,
        ((base_hash & 0xFFFFFFFFu64) as usize) % filter_size,
        (((base_hash >> 16u64) & 0xFFFFFFFFu64) as usize) % filter_size,
        (((u64_specs::wrapping_mul(base_hash, 0x5bd1e995u64) >> 24u64) & 0xFFFFFFFFu64) as usize) % filter_size,
        ((u64_specs::wrapping_add(base_hash, 0x9e3779b97f4a7c15u64) & 0xFFFFFFFFu64) as usize) % filter_size,
        (((u64_specs::wrapping_mul(base_hash, 0xc6a4a7935bd1e995u64) >> 17u64) & 0xFFFFFFFFu64) as usize) % filter_size,
        ((u64_specs::wrapping_add(base_hash, 0xdaba0b6eb09322e3u64) & 0xFFFFFFFFu64) as usize) % filter_size,
    ]
}

/// The bit positions that adding `hashed` sets.
pub open spec fn positions_for(hashed: Seq<u8>) -> Seq<usize> {
    bloom_indices(xxhash64(1234, hashed), BLOOM_FILTER_SIZE)
}

/// The byte string with every listed bit set, in list order.
pub open spec fn with_bits_set(bytes: Seq<u8>, indices: Seq<usize>) -> Seq<u8>
    decreases indices.len(),
{
    if indices.len() == 0 {
        bytes
    } else {
        with_bit_set(with_bits_set(bytes, indices.drop_last()), indices.last() as int)
    }
}

/// Setting a list of bits sets exactly those bits and keeps the others.
pub proof fn lemma_with_bits_set(bytes: Seq<u8>, indices: Seq<usize>, j: int)
    requires
        bytes.len() == BLOOM_FILTER_SIZE,
        forall|k: int| 0 <= k < indices.len() ==> #[trigger] indices[k] < BLOOM_FILTER_BITS,
        0 <= j < BLOOM_FILTER_BITS,
    ensures
        with_bits_set(bytes, indices).len() == BLOOM_FILTER_SIZE,
        bit_is_set(with_bits_set(bytes, indices), j) <==> (bit_is_set(bytes, j) || indices.contains(j as usize)),
    decreases indices.len(),
{
    if indices.len() > 0 {
        let rest = indices.drop_last();
        assert forall|k: int| 0 <= k < rest.len() implies #[trigger] rest[k] < BLOOM_FILTER_BITS by {
            assert(rest[k] == indices[k]);
        }
        lemma_with_bits_set(bytes, rest, j);
        assert(indices.last() == indices[indices.len() - 1]);
        lemma_with_bit_set(with_bits_set(bytes, rest), indices.last() as int, j);
        if indices.contains(j as usize) {
            let k = choose|k: int| 0 <= k < indices.len() && indices[k] == j as usize;
            if k < indices.len() - 1 {
                assert(rest[k] == indices[k]);
            }
        }
        if rest.contains(j as usize) {
            let k = choose|k: int| 0 <= k < rest.len() && rest[k] == j as usize;
            assert(indices[k] == rest[k]);
        }
    }
}

pub proof fn lemma_bloom_indices_in_range(base_hash: u64)
    ensures
        forall|k: int| 0 <= k < 7 ==> #[trigger] bloom_indices(base_hash, BLOOM_FILTER_SIZE)[k] < BLOOM_FILTER_SIZE,
        bloom_indices(base_hash, BLOOM_FILTER_SIZE).len() == 7,
{
}

/// The filter bits after adding each key in turn.
pub open spec fn added_all(bits: Seq<u8>, keys: Seq<Seq<u8>>) -> Seq<u8>
    decreases keys.len(),
{
    if keys.len() == 0 {
        bits
    } else {
        with_bits_set(added_all(bits, keys.drop_last()), positions_for(keys.last()))
    }
}

/// The filter has no false negatives: once a key is added, every one of its bit
/// positions is set, whatever keys are added after it.
pub proof fn lemma_no_false_negatives(bits: Seq<u8>, key: Seq<u8>, later: Seq<Seq<u8>>)
    requires
        bits.len() == BLOOM_FILTER_SIZE,
    ensures
        forall|k: int|
            0 <= k < 7 ==> bit_is_set(
                added_all(with_bits_set(bits, positions_for(key)), later),
                #[trigger] positions_for(key)[k] as int,
            ),
{
    let positions = positions_for(key);
    let first = with_bits_set(bits, positions);
    lemma_bloom_indices_in_range(xxhash64(1234, key));
    assert forall|m: int| 0 <= m < positions.len() implies #[trigger] positions[m] < BLOOM_FILTER_BITS by {}
    assert forall|k: int| 0 <= k < 7 implies bit_is_set(added_all(first, later), #[trigger] positions_for(key)[k] as int) by {
        lemma_with_bits_set(bits, positions, positions[k] as int);
        assert(positions.contains(positions[k]));
        lemma_added_all_keeps_bits(first, later, positions[k] as int);
    }
}

/// Adding keys keeps the filter's length and never clears a bit.
proof fn lemma_added_all_keeps_bits(bits: Seq<u8>, keys: Seq<Seq<u8>>, j: int)
    requires
        bits.len() == BLOOM_FILTER_SIZE,
        0 <= j < BLOOM_FILTER_BITS,
    ensures
        added_all(bits, keys).len() == BLOOM_FILTER_SIZE,
        bit_is_set(bits, j) ==> bit_is_set(added_all(bits, keys), j),
    decreases keys.len(),
{
    if keys.len() > 0 {
        lemma_added_all_keeps_bits(bits, keys.drop_last(), j);
        let positions = positions_for(keys.last());
        lemma_bloom_indices_in_range(xxhash64(1234, keys.last()));
        assert forall|m: int| 0 <= m < positions.len() implies #[trigger] positions[m] < BLOOM_FILTER_BITS by {}
        lemma_with_bits_set(added_all(bits, keys.drop_last()), positions, j);
    }
}

/// The filter bits after a run of calls, each setting a list of bit positions:
/// `set_bit(i)` sets `seq![i]` and `add(key)` sets `positions_for(key)`.
pub open spec fn after_calls(bits: Seq<u8>, calls: Seq<Seq<usize>>) -> Seq<u8>
    decreases calls.len(),
{
    if calls.len() == 0 {
        bits
    } else {
        with_bits_set(after_calls(bits, calls.drop_last()), calls.last())
    }
}

/// A bit once set stays set, whatever `set_bit` and `add` calls follow: so
/// `check_bit` keeps answering true for it.
pub proof fn lemma_set_bits_stay_set(bits: Seq<u8>, calls: Seq<Seq<usize>>, j: int)
    requires
        bits.len() == BLOOM_FILTER_SIZE,
        forall|c: int, m: int| 0 <= c < calls.len() && 0 <= m < calls[c].len() ==> #[trigger] calls[c][m] < BLOOM_FILTER_BITS,
        0 <= j < BLOOM_FILTER_BITS,
        bit_is_set(bits, j),
    ensures
        after_calls(bits, calls).len() == BLOOM_FILTER_SIZE,
        bit_is_set(after_calls(bits, calls), j),
    decreases calls.len(),
{
    if calls.len() > 0 {
        let rest = calls.drop_last();
        assert forall|c: int, m: int| 0 <= c < rest.len() && 0 <= m < rest[c].len() implies #[trigger] rest[c][m] < BLOOM_FILTER_BITS by {
            assert(rest[c] == calls[c]);
        }
        lemma_set_bits_stay_set(bits, rest, j);
        let last = calls.last();
        assert forall|m: int| 0 <= m < last.len() implies #[trigger] last[m] < BLOOM_FILTER_BITS by {
            assert(calls[calls.len() - 1][m] < BLOOM_FILTER_BITS);
        }
        lemma_with_bits_set(after_calls(bits, rest), last, j);
    }
}

/// A call of `set_bit(index)` is the call that sets `seq![index]`.
pub proof fn lemma_set_bit_is_one_call(bits: Seq<u8>, index: usize)
    ensures
        with_bit_set(bits, index as int) == with_bits_set(bits, seq![index]),
{
    let one = seq![index];
    assert(one.drop_last() =~= Seq::<usize>::empty());
    assert(with_bits_set(bits, one.drop_last()) == bits);
    assert(one.last() == index);
    assert(with_bits_set(bits, one) == with_bit_set(with_bits_set(bits, one.drop_last()), one.last() as int));
}

proof fn lemma_u8_from_bits(a: u8, b: u8)
    requires
        ((a >> 0u8) & 1u8 == 1u8) == ((b >> 0u8) & 1u8 == 1u8),
        ((a >> 1u8) & 1u8 == 1u8) == ((b >> 1u8) & 1u8 == 1u8),
        ((a >> 2u8) & 1u8 == 1u8) == ((b >> 2u8) & 1u8 == 1u8),
        ((a >> 3u8) & 1u8 == 1u8) == ((b >> 3u8) & 1u8 == 1u8),
        ((a >> 4u8) & 1u8 == 1u8) == ((b >> 4u8) & 1u8 == 1u8),
        ((a >> 5u8) & 1u8 == 1u8) == ((b >> 5u8) & 1u8 == 1u8),
        ((a >> 6u8) & 1u8 == 1u8) == ((b >> 6u8) & 1u8 == 1u8),
        ((a >> 7u8) & 1u8 == 1u8) == ((b >> 7u8) & 1u8 == 1u8),
    ensures
        a == b,
{
    assert(a == b) by (bit_vector)
        requires
            ((a >> 0u8) & 1u8 == 1u8) == ((b >> 0u8) & 1u8 == 1u8),
            ((a >> 1u8) & 1u8 == 1u8) == ((b >> 1u8) & 1u8 == 1u8),
            ((a >> 2u8) & 1u8 == 1u8) == ((b >> 2u8) & 1u8 == 1u8),
            ((a >> 3u8) & 1u8 == 1u8) == ((b >> 3u8) & 1u8 == 1u8),
            ((a >> 4u8) & 1u8 == 1u8) == ((b >> 4u8) & 1u8 == 1u8),
            ((a >> 5u8) & 1u8 == 1u8) == ((b >> 5u8) & 1u8 == 1u8),
            ((a >> 6u8) & 1u8 == 1u8) == ((b >> 6u8) & 1u8 == 1u8),
            ((a >> 7u8) & 1u8 == 1u8) == ((b >> 7u8) & 1u8 == 1u8),
    ;
}

/// Two filters with the same bits set are the same filter.
proof fn lemma_same_bits_same_filter(x: Seq<u8>, y: Seq<u8>)
    requires
        x.len() == BLOOM_FILTER_SIZE,
        y.len() == BLOOM_FILTER_SIZE,
        forall|j: int| 0 <= j < BLOOM_FILTER_BITS ==> (#[trigger] bit_is_set(x, j) == bit_is_set(y, j)),
    ensures
        x == y,
{
    assert forall|i: int| 0 <= i < BLOOM_FILTER_SIZE implies x[i] == y[i] by {
        assert(bit_is_set(x, 8 * i + 0) == bit_is_set(y, 8 * i + 0));
        assert(bit_is_set(x, 8 * i + 1) == bit_is_set(y, 8 * i + 1));
        assert(bit_is_set(x, 8 * i + 2) == bit_is_set(y, 8 * i + 2));
        assert(bit_is_set(x, 8 * i + 3) == bit_is_set(y, 8 * i + 3));
        assert(bit_is_set(x, 8 * i + 4) == bit_is_set(y, 8 * i + 4));
        assert(bit_is_set(x, 8 * i + 5) == bit_is_set(y, 8 * i + 5));
        assert(bit_is_set(x, 8 * i + 6) == bit_is_set(y, 8 * i + 6));
        assert(bit_is_set(x, 8 * i + 7) == bit_is_set(y, 8 * i + 7));
        lemma_u8_from_bits(x[i], y[i]);
    }
    assert(x =~= y);
}

proof fn lemma_positions_below_bits(key: Seq<u8>)
    ensures
        forall|m: int| 0 <= m < positions_for(key).len() ==> #[trigger] positions_for(key)[m] < BLOOM_FILTER_BITS,
{
    lemma_bloom_indices_in_range(xxhash64(1234, key));
}

/// Adding two keys in either order gives the same filter.
pub proof fn lemma_add_commutes(bits: Seq<u8>, first: Seq<u8>, second: Seq<u8>)
    requires
        bits.len() == BLOOM_FILTER_SIZE,
    ensures
        with_bits_set(with_bits_set(bits, positions_for(first)), positions_for(second)) == with_bits_set(
            with_bits_set(bits, positions_for(second)),
            positions_for(first),
        ),
{
    let (p1, p2) = (positions_for(first), positions_for(second));
    lemma_positions_below_bits(first);
    lemma_positions_below_bits(second);
    let a = with_bits_set(bits, p1);
    let b = with_bits_set(bits, p2);
    lemma_with_bits_set(bits, p1, 0);
    lemma_with_bits_set(bits, p2, 0);
    lemma_with_bits_set(a, p2, 0);
    lemma_with_bits_set(b, p1, 0);
    assert forall|j: int| 0 <= j < BLOOM_FILTER_BITS implies #[trigger] bit_is_set(with_bits_set(a, p2), j)
        == bit_is_set(with_bits_set(b, p1), j) by {
        lemma_with_bits_set(bits, p1, j);
        lemma_with_bits_set(bits, p2, j);
        lemma_with_bits_set(a, p2, j);
        lemma_with_bits_set(b, p1, j);
    }
    lemma_same_bits_same_filter(with_bits_set(a, p2), with_bits_set(b, p1));
}

/// Adding a key again leaves the filter as it was.
pub proof fn lemma_add_idempotent(bits: Seq<u8>, key: Seq<u8>)
    requires
        bits.len() == BLOOM_FILTER_SIZE,
    ensures
        with_bits_set(with_bits_set(bits, positions_for(key)), positions_for(key)) == with_bits_set(
            bits,
            positions_for(key),
        ),
{
    let p = positions_for(key);
    lemma_positions_below_bits(key);
    let a = with_bits_set(bits, p);
    lemma_with_bits_set(bits, p, 0);
    lemma_with_bits_set(a, p, 0);
    assert forall|j: int| 0 <= j < BLOOM_FILTER_BITS implies #[trigger] bit_is_set(with_bits_set(a, p), j)
        == bit_is_set(a, j) by {
        lemma_with_bits_set(bits, p, j);
        lemma_with_bits_set(a, p, j);
    }
    lemma_same_bits_same_filter(with_bits_set(a, p), a);
}

pub trait BloomFilterOps {
    fn set_bit(&mut self, index: usize)
        requires
            index < BLOOM_FILTER_BITS,
    ;

    fn check_bit(&self, index: usize) -> bool
        requires
            index < BLOOM_FILTER_BITS,
    ;

    fn add(&mut self, hashed: &[u8; 16]);
}

impl BloomFilter {
    /// An empty filter: no bit set.
    pub fn new() -> (filter: Self)
        ensures
            forall|j: int| 0 <= j < BLOOM_FILTER_SIZE ==> #[trigger] filter.bits@[j] == 0u8,
            forall|i: int| 0 <= i < BLOOM_FILTER_BITS ==> !bit_is_set(#[trigger] filter.bits@, i),
    {
        let mut bits = [0u8; BLOOM_FILTER_SIZE];
        let mut k: usize = 0;
        while k < BLOOM_FILTER_SIZE
            invariant
                k <= BLOOM_FILTER_SIZE,
                forall|j: int| 0 <= j < k ==> bits@[j] == 0u8,
            decreases BLOOM_FILTER_SIZE - k,
        {
            bits[k] = 0;
            k = k + 1;
        }
        let filter = BloomFilter { bits };
        proof {
            assert forall|i: int| 0 <= i < BLOOM_FILTER_BITS implies !bit_is_set(filter.bits@, i) by {
                let s = (i % 8) as u8;
                assert(filter.bits@[i / 8] == 0u8);
                assert((0u8 >> s) & 1u8 == 0u8) by (bit_vector);
            }
        }
        filter
    }

    /// 7 Hash functions used for Bloom Filter:
    /// We use one base hash functions and derive 7 hash functions from it.
    /// 1. xxHash-derived
    /// 2. CityHash-derived
    /// 3. FNV-1a variation
    /// 4. SipHash-derived
    /// 5. WyHash-derived
    /// 6. MetroHash-derived
    /// 7. xxHash-derived
    fn hash(&self, hashed: &[u8; 16], filter_size: usize) -> (indices: [usize; 7])
        requires
            filter_size > 0,
        ensures
            indices@ == bloom_indices(xxhash64(1234, hashed@), filter_size),
    {
        let base_hash = xxhash64_oneshot(1234, hashed);
        let indices = [
            (base_hash >> 32u64) as usize % filter_size,
            (base_hash & 0xFFFFFFFF) as usize % filter_size,  // xxHash-derived
            ((base_hash >> 16u64) & 0xFFFFFFFF) as usize % filter_size,  // CityHash-derived
            ((base_hash.wrapping_mul(0x5bd1e995) >> 24u64) & 0xFFFFFFFF) as usize % filter_size,  // FNV-1a variation
            ((base_hash.wrapping_add(0x9e3779b97f4a7c15)) & 0xFFFFFFFF) as usize % filter_size,  // SipHash-derived
            ((base_hash.wrapping_mul(0xc6a4a7935bd1e995) >> 17u64) & 0xFFFFFFFF) as usize % filter_size,  // WyHash-derived
            ((base_hash.wrapping_add(0xdaba0b6eb09322e3)) & 0xFFFFFFFF) as usize % filter_size,  // MetroHash-derived
        ];
        assert(indices@ =~= bloom_indices(base_hash, filter_size));
        indices
    }
}

impl BloomFilterOps for BloomFilter {
    /// Sets bit `index`; every other bit stays as it was.
    fn set_bit(&mut self, index: usize)
        ensures
            final(self).bits@ == with_bit_set(old(self).bits@, index as int),
            forall|j: int|
                0 <= j < BLOOM_FILTER_BITS ==> (#[trigger] bit_is_set(final(self).bits@, j) <==> (j == index || bit_is_set(
                    old(self).bits@,
                    j,
                ))),
    {
        let byte_offset = index / 8;
        let bit_offset = index % 8;
        self.bits[byte_offset] = self.bits[byte_offset] | (1u8 << (bit_offset as u8));  // set bit
        assert(self.bits@ =~= with_bit_set(old(self).bits@, index as int));
        assert forall|j: int| 0 <= j < BLOOM_FILTER_BITS implies (#[trigger] bit_is_set(self.bits@, j) <==> (j == index || bit_is_set(old(self).bits@, j))) by {
            lemma_with_bit_set(old(self).bits@, index as int, j);
        }
    }

    /// Whether bit `index` is set.
    fn check_bit(&self, index: usize) -> (set: bool)
        ensures
            set == bit_is_set(self.bits@, index as int),
    {
        let byte_offset = index / 8;
        let bit_offset = index % 8;
        let b = self.bits[byte_offset];
        let k = bit_offset as u8;
        assert((b & (1u8 << k) != 0u8) == ((b >> k) & 1u8 == 1u8)) by (bit_vector)
            requires
                k < 8,
        ;
        b & (1u8 << k) != 0  // check bit
    }

    /// Uses 7 hash functions to set bits in the Bloom Filter: afterwards every bit
    /// position of `hashed` is set (no false negatives), and no bit set before is
    /// cleared.
    fn add(&mut self, hashed: &[u8; 16])
        ensures
            final(self).bits@ == with_bits_set(old(self).bits@, positions_for(hashed@)),
            forall|k: int| 0 <= k < 7 ==> bit_is_set(final(self).bits@, #[trigger] positions_for(hashed@)[k] as int),
            forall|j: int| 0 <= j < BLOOM_FILTER_BITS && bit_is_set(old(self).bits@, j) ==> #[trigger] bit_is_set(final(self).bits@, j),
    {
        let hashed_indices = self.hash(hashed, BLOOM_FILTER_SIZE);
        let ghost indices = hashed_indices@;
        proof {
            lemma_bloom_indices_in_range(xxhash64(1234, hashed@));
        }
        let mut k: usize = 0;
        while k < 7
            invariant
                k <= 7,
                indices == hashed_indices@,
                indices == positions_for(hashed@),
                indices.len() == 7,
                forall|m: int| 0 <= m < 7 ==> #[trigger] indices[m] < BLOOM_FILTER_SIZE,
                self.bits@ == with_bits_set(old(self).bits@, indices.take(k as int)),
            decreases 7 - k,
        {
            let index = hashed_indices[k];
            self.set_bit(index);
            proof {
                assert(indices.take(k + 1).drop_last() =~= indices.take(k as int));
            }
            k = k + 1;
        }
        proof {
            assert(indices.take(7) =~= indices);
            assert forall|m: int| 0 <= m < indices.len() implies #[trigger] indices[m] < BLOOM_FILTER_BITS by {}
            assert forall|k: int| 0 <= k < 7 implies bit_is_set(self.bits@, #[trigger] positions_for(hashed@)[k] as int) by {
                lemma_with_bits_set(old(self).bits@, indices, indices[k] as int);
                assert(indices.contains(indices[k]));
            }
            assert forall|j: int| 0 <= j < BLOOM_FILTER_BITS && bit_is_set(old(self).bits@, j) implies #[trigger] bit_is_set(self.bits@, j) by {
                lemma_with_bits_set(old(self).bits@, indices, j);
            }
        }
    }
}

} // verus!
