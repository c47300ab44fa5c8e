//! The eight coverage bits of a bit-counter.

use vstd::prelude::*;

verus! {

/// Bit `k` of the bit-counter `c` is set.
pub open spec fn bit_set(c: u8, k: u8) -> bool {
    c & (1u8 << k) != 0
}

/// The sancov index that a feature reports.
pub open spec fn feature_index(feature: u32) -> u32 {
    feature / 8
}

/// The bit-counter with only the bit that a feature reports.
pub open spec fn feature_bit(feature: u32) -> u8 {
    1u8 << ((feature % 8) as u8)
}

/// Some feature of the batch reports the sancov index `s`.
pub open spec fn reported(features: Seq<u32>, s: u32) -> bool {
    exists|j: int| 0 <= j < features.len() && feature_index(#[trigger] features[j]) == s
}

/// The bits that the features of the batch report for the sancov index `s`,
/// joined by bitwise or.
pub open spec fn batch_bits(features: Seq<u32>, s: u32) -> u8
    decreases features.len(),
{
    if features.len() == 0 {
        0
    } else if feature_index(features.last()) == s {
        batch_bits(features.drop_last(), s) | feature_bit(features.last())
    } else {
        batch_bits(features.drop_last(), s)
    }
}

/// A bit is set in the bitwise or of two bit-counters just if it is set in
/// one of them; and joining a bit-counter to itself or to nothing changes
/// nothing.
pub proof fn lemma_or_bits(x: u8, y: u8)
    ensures
        forall|k: u8| k < 8 ==> (#[trigger] bit_set(x | y, k) <==> bit_set(x, k) || bit_set(y, k)),
        (x | y) | y == x | y,
        x | 0 == x,
        0 | x == x,
{
    assert forall|k: u8| k < 8 implies (#[trigger] bit_set(x | y, k) <==> bit_set(x, k) || bit_set(y, k)) by {
        assert(k < 8 ==> (((x | y) & (1u8 << k) != 0) <==> ((x & (1u8 << k) != 0) || (y & (1u8 << k) != 0))))
            by (bit_vector);
    }
    assert((x | y) | y == x | y) by (bit_vector);
    assert(x | 0 == x) by (bit_vector);
    assert(0 | x == x) by (bit_vector);
}

/// Two bit-counters with the same bits set are equal.
pub proof fn lemma_same_bits(x: u8, y: u8)
    requires
        forall|k: u8| k < 8 ==> (#[trigger] bit_set(x, k) <==> bit_set(y, k)),
    ensures
        x == y,
{
    assert(bit_set(x, 0) <==> bit_set(y, 0));
    assert(bit_set(x, 1) <==> bit_set(y, 1));
    assert(bit_set(x, 2) <==> bit_set(y, 2));
    assert(bit_set(x, 3) <==> bit_set(y, 3));
    assert(bit_set(x, 4) <==> bit_set(y, 4));
    assert(bit_set(x, 5) <==> bit_set(y, 5));
    assert(bit_set(x, 6) <==> bit_set(y, 6));
    assert(bit_set(x, 7) <==> bit_set(y, 7));
    assert(x == y) by (bit_vector)
        requires
            (x & (1u8 << 0u8) != 0) <==> (y & (1u8 << 0u8) != 0),
            (x & (1u8 << 1u8) != 0) <==> (y & (1u8 << 1u8) != 0),
            (x & (1u8 << 2u8) != 0) <==> (y & (1u8 << 2u8) != 0),
            (x & (1u8 << 3u8) != 0) <==> (y & (1u8 << 3u8) != 0),
            (x & (1u8 << 4u8) != 0) <==> (y & (1u8 << 4u8) != 0),
            (x & (1u8 << 5u8) != 0) <==> (y & (1u8 << 5u8) != 0),
            (x & (1u8 << 6u8) != 0) <==> (y & (1u8 << 6u8) != 0),
            (x & (1u8 << 7u8) != 0) <==> (y & (1u8 << 7u8) != 0),
    ;
}

/// A sancov index that no feature reports has no bit in the batch.
pub proof fn lemma_batch_bits_unreported(features: Seq<u32>, s: u32)
    requires
        !reported(features, s),
    ensures
        batch_bits(features, s) == 0,
    decreases features.len(),
{
    if features.len() > 0 {
        let front = features.drop_last();
        assert(feature_index(features[features.len() - 1]) != s);
        assert(!reported(front, s)) by {
            if reported(front, s) {
                let j = choose|j: int| 0 <= j < front.len() && feature_index(#[trigger] front[j]) == s;
                assert(feature_index(features[j]) == s);
            }
        }
        lemma_batch_bits_unreported(front, s);
    }
}

/// Bit `k` is set for the sancov index `s` in the batch just if the batch
/// holds the feature `8 * s + k`.
pub proof fn lemma_batch_bits_features(features: Seq<u32>, s: u32, k: u8)
    requires
        k < 8,
    ensures
        bit_set(batch_bits(features, s), k) <==> exists|j: int|
            0 <= j < features.len() && #[trigger] features[j] == 8 * s + k,
    decreases features.len(),
{
    if features.len() == 0 {
        assert(!bit_set(0u8, k)) by {
            assert(0u8 & (1u8 << k) == 0) by (bit_vector);
        }
    } else {
        let front = features.drop_last();
        let f = features.last();
        lemma_batch_bits_features(front, s, k);
        let before = batch_bits(front, s);
        if exists|j: int| 0 <= j < front.len() && #[trigger] front[j] == 8 * s + k {
            let j = choose|j: int| 0 <= j < front.len() && #[trigger] front[j] == 8 * s + k;
            assert(features[j] == 8 * s + k);
        }
        if exists|j: int| 0 <= j < features.len() && #[trigger] features[j] == 8 * s + k {
            let j = choose|j: int| 0 <= j < features.len() && #[trigger] features[j] == 8 * s + k;
            if j < front.len() {
                assert(front[j] == 8 * s + k);
            }
        }
        if feature_index(f) == s {
            lemma_or_bits(before, feature_bit(f));
            let r = (f % 8) as u8;
            assert(r < 8 && k < 8 ==> (((1u8 << r) & (1u8 << k) != 0) <==> r == k)) by (bit_vector);
            assert(bit_set(feature_bit(f), k) <==> r == k);
            assert(f == 8 * s + r);
            assert(features[features.len() - 1] == f);
        } else {
            assert(f != 8 * s + k);
        }
    }
}

} // verus!
