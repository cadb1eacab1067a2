//! Ordering of single-precision samples held as their IEEE-754 bit patterns.
//!
//! A sample is carried as the `u32` that `f32::to_bits` gives. The spans of the
//! level-of-detail pyramid are built with the rules of `f32::min` and `f32::max`:
//! a NaN argument is ignored in favour of the other one, and otherwise the value
//! that lies lower (or higher) on the number line wins. Where `f32::min` and
//! `f32::max` leave the choice open (between `-0.0` and `+0.0`, or between two
//! NaNs), this library makes its own: the first argument for two zeros, the
//! second for two NaNs.

use vstd::prelude::*;

verus! {

/// The bits of an encoding that hold its magnitude (all but the sign bit).
pub open spec fn magnitude(bits: u32) -> u32 {
    bits & 0x7fff_ffffu32
}

/// Whether `bits` encodes a NaN: an all-ones exponent with a non-zero fraction.
pub open spec fn is_nan(bits: u32) -> bool {
    magnitude(bits) > 0x7f80_0000u32
}

/// Where the encoded value lies on the number line. For two encodings that are
/// not NaN, the values compare as their ranks do; both zeros rank 0.
pub open spec fn rank(bits: u32) -> int {
    if bits >= 0x8000_0000u32 {
        -(magnitude(bits) as int)
    } else {
        magnitude(bits) as int
    }
}

/// The smaller of two samples, NaN ignored; of two equal ranks the first.
pub open spec fn min_sample(a: u32, b: u32) -> u32 {
    if is_nan(a) {
        b
    } else if is_nan(b) {
        a
    } else if rank(b) < rank(a) {
        b
    } else {
        a
    }
}

/// The larger of two samples, NaN ignored; of two equal ranks the first.
pub open spec fn max_sample(a: u32, b: u32) -> u32 {
    if is_nan(a) {
        b
    } else if is_nan(b) {
        a
    } else if rank(a) < rank(b) {
        b
    } else {
        a
    }
}

/// The minimum of a non-empty run of samples, folded from the left.
pub open spec fn seq_min(s: Seq<u32>) -> u32
    decreases s.len(),
{
    if s.len() <= 1 {
        s[0]
    } else {
        min_sample(seq_min(s.drop_last()), s.last())
    }
}

/// The maximum of a non-empty run of samples, folded from the left.
pub open spec fn seq_max(s: Seq<u32>) -> u32
    decreases s.len(),
{
    if s.len() <= 1 {
        s[0]
    } else {
        max_sample(seq_max(s.drop_last()), s.last())
    }
}

/// A NaN is exactly an encoding whose exponent bits are all ones and whose
/// fraction is not zero, whatever its sign bit.
pub proof fn lemma_nan_is_all_ones_exponent_with_fraction(bits: u32)
    ensures
        is_nan(bits) <==> ((bits >> 23u32) & 0xffu32 == 0xffu32 && bits & 0x007f_ffffu32 != 0),
{
    assert(((bits & 0x7fff_ffffu32) > 0x7f80_0000u32) <==> ((bits >> 23u32) & 0xffu32 == 0xffu32
        && bits & 0x007f_ffffu32 != 0)) by (bit_vector);
}

/// Flipping the sign bit neither makes nor unmakes a NaN.
pub proof fn lemma_nan_ignores_sign(bits: u32)
    ensures
        is_nan(bits) == is_nan(bits ^ 0x8000_0000u32),
{
    assert(((bits & 0x7fff_ffffu32) > 0x7f80_0000u32) == (((bits ^ 0x8000_0000u32) & 0x7fff_ffffu32)
        > 0x7f80_0000u32)) by (bit_vector);
}

/// Whether a sample's bit pattern encodes a NaN.
pub fn sample_is_nan(bits: u32) -> (r: bool)
    ensures
        r == is_nan(bits),
        r == ((bits >> 23u32) & 0xffu32 == 0xffu32 && bits & 0x007f_ffffu32 != 0),
        r == is_nan(bits ^ 0x8000_0000u32),
{
    proof {
        lemma_nan_is_all_ones_exponent_with_fraction(bits);
        lemma_nan_ignores_sign(bits);
    }
    (bits & 0x7fff_ffffu32) > 0x7f80_0000u32
}

/// The rank of a sample on the number line.
pub fn sample_rank(bits: u32) -> (r: i64)
    ensures
        r == rank(bits),
{
    let m: u32 = bits & 0x7fff_ffffu32;
    if bits >= 0x8000_0000u32 {
        -(m as i64)
    } else {
        m as i64
    }
}

/// The smaller of two samples, NaN ignored as by `f32::min`. Of two values
/// that rank equal (`-0.0` and `+0.0`) the first is returned; of two NaNs the
/// second: these tie rules are this library's own, which std leaves open.
pub fn min_of(a: u32, b: u32) -> (r: u32)
    ensures
        r == min_sample(a, b),
{
    if sample_is_nan(a) {
        b
    } else if sample_is_nan(b) {
        a
    } else if sample_rank(b) < sample_rank(a) {
        b
    } else {
        a
    }
}

/// The larger of two samples, NaN ignored as by `f32::max`. Of two values
/// that rank equal (`-0.0` and `+0.0`) the first is returned; of two NaNs the
/// second: these tie rules are this library's own, which std leaves open.
pub fn max_of(a: u32, b: u32) -> (r: u32)
    ensures
        r == max_sample(a, b),
{
    if sample_is_nan(a) {
        b
    } else if sample_is_nan(b) {
        a
    } else if sample_rank(a) < sample_rank(b) {
        b
    } else {
        a
    }
}

/// Taking the minimum is associative, so the grouping of a fold does not matter.
pub proof fn lemma_min_assoc(a: u32, b: u32, c: u32)
    ensures
        min_sample(min_sample(a, b), c) == min_sample(a, min_sample(b, c)),
{
}

/// Taking the maximum is associative, so the grouping of a fold does not matter.
pub proof fn lemma_max_assoc(a: u32, b: u32, c: u32)
    ensures
        max_sample(max_sample(a, b), c) == max_sample(a, max_sample(b, c)),
{
}

/// The minimum of two adjoining runs is the minimum of their minima.
pub proof fn lemma_seq_min_concat(s1: Seq<u32>, s2: Seq<u32>)
    requires
        s1.len() > 0,
        s2.len() > 0,
    ensures
        seq_min(s1 + s2) == min_sample(seq_min(s1), seq_min(s2)),
    decreases s2.len(),
{
    let s = s1 + s2;
    assert(s.drop_last() =~= s1 + s2.drop_last());
    if s2.len() > 1 {
        lemma_seq_min_concat(s1, s2.drop_last());
        lemma_min_assoc(seq_min(s1), seq_min(s2.drop_last()), s2.last());
    } else {
        assert(s2.drop_last() =~= Seq::<u32>::empty());
        assert(s1 + s2.drop_last() =~= s1);
    }
}

/// The maximum of two adjoining runs is the maximum of their maxima.
pub proof fn lemma_seq_max_concat(s1: Seq<u32>, s2: Seq<u32>)
    requires
        s1.len() > 0,
        s2.len() > 0,
    ensures
        seq_max(s1 + s2) == max_sample(seq_max(s1), seq_max(s2)),
    decreases s2.len(),
{
    let s = s1 + s2;
    assert(s.drop_last() =~= s1 + s2.drop_last());
    if s2.len() > 1 {
        lemma_seq_max_concat(s1, s2.drop_last());
        lemma_max_assoc(seq_max(s1), seq_max(s2.drop_last()), s2.last());
    } else {
        assert(s2.drop_last() =~= Seq::<u32>::empty());
        assert(s1 + s2.drop_last() =~= s1);
    }
}

/// The minimum of a run is one of its samples; it is NaN only when every sample
/// is, and otherwise it ranks no higher than any sample that is not NaN.
pub proof fn lemma_seq_min_is_least(s: Seq<u32>)
    requires
        s.len() > 0,
    ensures
        s.contains(seq_min(s)),
        is_nan(seq_min(s)) ==> forall|i: int| 0 <= i < s.len() ==> is_nan(#[trigger] s[i]),
        forall|i: int|
            0 <= i < s.len() && !is_nan(#[trigger] s[i]) ==> !is_nan(seq_min(s)) && rank(
                seq_min(s),
            ) <= rank(s[i]),
    decreases s.len(),
{
    if s.len() == 1 {
        assert(s[0] == seq_min(s));
    } else {
        let p = s.drop_last();
        lemma_seq_min_is_least(p);
        let m = seq_min(p);
        let j = choose|j: int| 0 <= j < p.len() && p[j] == m;
        assert(s[j] == m);
        assert(s[s.len() - 1] == s.last());
        assert forall|i: int| 0 <= i < s.len() && !is_nan(#[trigger] s[i]) implies !is_nan(
            seq_min(s),
        ) && rank(seq_min(s)) <= rank(s[i]) by {
            if i < s.len() - 1 {
                assert(s[i] == p[i]);
            }
        }
        if is_nan(seq_min(s)) {
            assert forall|i: int| 0 <= i < s.len() implies is_nan(#[trigger] s[i]) by {
                if i < s.len() - 1 {
                    assert(s[i] == p[i]);
                }
            }
        }
    }
}

/// The maximum of a run is one of its samples; it is NaN only when every sample
/// is, and otherwise it ranks no lower than any sample that is not NaN.
pub proof fn lemma_seq_max_is_greatest(s: Seq<u32>)
    requires
        s.len() > 0,
    ensures
        s.contains(seq_max(s)),
        is_nan(seq_max(s)) ==> forall|i: int| 0 <= i < s.len() ==> is_nan(#[trigger] s[i]),
        forall|i: int|
            0 <= i < s.len() && !is_nan(#[trigger] s[i]) ==> !is_nan(seq_max(s)) && rank(s[i])
                <= rank(seq_max(s)),
    decreases s.len(),
{
    if s.len() == 1 {
        assert(s[0] == seq_max(s));
    } else {
        let p = s.drop_last();
        lemma_seq_max_is_greatest(p);
        let m = seq_max(p);
        let j = choose|j: int| 0 <= j < p.len() && p[j] == m;
        assert(s[j] == m);
        assert(s[s.len() - 1] == s.last());
        assert forall|i: int| 0 <= i < s.len() && !is_nan(#[trigger] s[i]) implies !is_nan(
            seq_max(s),
        ) && rank(s[i]) <= rank(seq_max(s)) by {
            if i < s.len() - 1 {
                assert(s[i] == p[i]);
            }
        }
        if is_nan(seq_max(s)) {
            assert forall|i: int| 0 <= i < s.len() implies is_nan(#[trigger] s[i]) by {
                if i < s.len() - 1 {
                    assert(s[i] == p[i]);
                }
            }
        }
    }
}

/// The minimum and maximum of a run agree: both are NaN (every sample is) or
/// neither is, and then the minimum ranks no higher than the maximum.
pub proof fn lemma_min_max_ordered(s: Seq<u32>)
    requires
        s.len() > 0,
    ensures
        is_nan(seq_min(s)) <==> is_nan(seq_max(s)),
        !is_nan(seq_min(s)) ==> rank(seq_min(s)) <= rank(seq_max(s)),
{
    lemma_seq_min_is_least(s);
    lemma_seq_max_is_greatest(s);
    let i = choose|i: int| 0 <= i < s.len() && s[i] == seq_min(s);
    let j = choose|j: int| 0 <= j < s.len() && s[j] == seq_max(s);
    assert(s[i] == seq_min(s));
    assert(s[j] == seq_max(s));
}

/// A NaN argument, of either sign, is ignored: the minimum and the maximum of
/// a NaN and a number are the number, whichever comes first.
pub proof fn lemma_nan_argument_ignored(a: u32, b: u32)
    requires
        (a >> 23u32) & 0xffu32 == 0xffu32,
        a & 0x007f_ffffu32 != 0,
        !((b >> 23u32) & 0xffu32 == 0xffu32 && b & 0x007f_ffffu32 != 0),
    ensures
        min_sample(a, b) == b,
        max_sample(a, b) == b,
        min_sample(b, a) == b,
        max_sample(b, a) == b,
{
    lemma_nan_is_all_ones_exponent_with_fraction(a);
    lemma_nan_is_all_ones_exponent_with_fraction(b);
}

/// Two numbers that differ only in the sign bit lie opposite each other on
/// the number line (both zeros rank 0), and a number with the sign bit clear
/// never ranks below one with it set.
pub proof fn lemma_rank_sign(bits: u32)
    ensures
        rank(bits) == -rank(bits ^ 0x8000_0000u32),
        bits < 0x8000_0000u32 ==> rank(bits) >= 0,
        bits >= 0x8000_0000u32 ==> rank(bits) <= 0,
{
    assert((bits & 0x7fff_ffffu32) == ((bits ^ 0x8000_0000u32) & 0x7fff_ffffu32)) by (bit_vector);
    assert((bits < 0x8000_0000u32) == ((bits ^ 0x8000_0000u32) >= 0x8000_0000u32)) by (bit_vector);
}

/// Ranks follow the bit patterns: among encodings with the sign bit clear the
/// larger pattern ranks higher, among those with it set the larger pattern
/// ranks lower, and any of the first ranks no lower than any of the second.
pub proof fn lemma_rank_orders_bits(a: u32, b: u32)
    ensures
        a < 0x8000_0000u32 && b < 0x8000_0000u32 ==> (rank(a) < rank(b) <==> a < b),
        a >= 0x8000_0000u32 && b >= 0x8000_0000u32 ==> (rank(a) < rank(b) <==> a > b),
        a >= 0x8000_0000u32 && b < 0x8000_0000u32 ==> rank(a) <= rank(b),
{
    assert(a < 0x8000_0000u32 ==> a & 0x7fff_ffffu32 == a) by (bit_vector);
    assert(b < 0x8000_0000u32 ==> b & 0x7fff_ffffu32 == b) by (bit_vector);
    assert(a >= 0x8000_0000u32 ==> a & 0x7fff_ffffu32 == a - 0x8000_0000u32) by (bit_vector);
    assert(b >= 0x8000_0000u32 ==> b & 0x7fff_ffffu32 == b - 0x8000_0000u32) by (bit_vector);
}

/// Of two samples that are not NaN, the minimum is one of them and ranks no
/// higher than either, and the maximum is one of them and ranks no lower;
/// of two equal ranks both give the first.
pub proof fn lemma_min_max_of_numbers(a: u32, b: u32)
    requires
        !is_nan(a),
        !is_nan(b),
    ensures
        min_sample(a, b) == a || min_sample(a, b) == b,
        rank(min_sample(a, b)) <= rank(a) && rank(min_sample(a, b)) <= rank(b),
        max_sample(a, b) == a || max_sample(a, b) == b,
        rank(max_sample(a, b)) >= rank(a) && rank(max_sample(a, b)) >= rank(b),
        rank(a) == rank(b) ==> min_sample(a, b) == a && max_sample(a, b) == a,
{
}

/// Two NaNs give the second.
pub proof fn lemma_two_nans(a: u32, b: u32)
    requires
        is_nan(a),
        is_nan(b),
    ensures
        min_sample(a, b) == b,
        max_sample(a, b) == b,
{
}

} // verus!
