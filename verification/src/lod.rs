//! Level-of-detail pyramid of min/max spans.
//!
//! Level 0 holds one span per sample (its min and max are the sample itself).
//! Level `L + 1` merges the entries of level `L` two by two; an odd last entry is
//! carried up unchanged. The top level holds a single entry: the min and max of
//! the whole dataset. Entry `i` of level `L` therefore spans the samples
//! `[i * 2^L, min((i + 1) * 2^L, n))`.
//!
//! A query for `target` buckets reads the highest level whose entries each
//! hold no more samples than one bucket and returns the entries under the
//! range, as long as there are at most `target + 1` of them. Where there are
//! more, it deals them, in order, into `target` buckets and merges each bucket
//! into one span. Either way a range of at least `target` samples gives
//! `target` or `target + 1` entries.

use vstd::prelude::*;
use vstd::arithmetic::power2::{
    pow2, lemma_pow2_unfold, lemma_pow2_pos, lemma_pow2_strictly_increases, lemma2_to64,
};
use crate::error::Error;
use crate::sample::{
    seq_min, seq_max, min_sample, max_sample, min_of, max_of, lemma_seq_min_concat,
    lemma_seq_max_concat, is_nan, rank, lemma_seq_min_is_least, lemma_seq_max_is_greatest,
};

verus! {

/// One min/max pair: the vertical extent of a run of samples, each held as the
/// bit pattern of an `f32`.
#[derive(Clone, Copy, Debug, PartialEq, Eq, Structural)]
pub struct MinMax {
    pub min: u32,
    pub max: u32,
}

/// The span of a non-empty run of samples.
pub open spec fn span(s: Seq<u32>) -> MinMax {
    MinMax { min: seq_min(s), max: seq_max(s) }
}

/// The samples that entry `i` of level `level` covers:
/// `[i * 2^level, min((i + 1) * 2^level, n))`.
pub open spec fn block(s: Seq<u32>, level: nat, i: int) -> Seq<u32> {
    let w = pow2(level) as int;
    let hi = (i + 1) * w;
    s.subrange(i * w, if hi < s.len() { hi } else { s.len() as int })
}

/// Entry `i` of level `level` of the pyramid built over `s`.
pub open spec fn entry(s: Seq<u32>, level: nat, i: int) -> MinMax {
    span(block(s, level, i))
}

/// Number of entries of level `level` over `n` samples: `n` halved `level`
/// times, rounding up.
pub open spec fn level_len(n: nat, level: nat) -> nat
    decreases level,
{
    if level == 0 {
        n
    } else {
        level_len(((n + 1) / 2) as nat, (level - 1) as nat)
    }
}

/// Number of levels of the pyramid over `n` samples, level 0 included.
pub open spec fn level_count_for(n: nat) -> nat
    decreases n,
{
    if n <= 1 {
        1
    } else {
        1 + level_count_for(((n + 1) / 2) as nat)
    }
}

/// Halving once more gives the next level's length.
pub proof fn lemma_level_len_step(n: nat, level: nat)
    ensures
        level_len(n, level + 1) == (level_len(n, level) + 1) / 2,
    decreases level,
{
    let h = ((n + 1) / 2) as nat;
    assert(level_len(n, level + 1) == level_len(h, level));
    if level > 0 {
        lemma_level_len_step(h, (level - 1) as nat);
        assert(level_len(n, level) == level_len(h, (level - 1) as nat));
    } else {
        assert(level_len(h, 0) == h);
    }
}

/// Level `level` has an entry `i` exactly when that entry's first sample exists:
/// its length is `n / 2^level` rounded up.
pub proof fn lemma_level_index(n: nat, level: nat, i: nat)
    ensures
        i < level_len(n, level) <==> i * pow2(level) < n,
    decreases level,
{
    if level == 0 {
        lemma2_to64();
    } else {
        let h = ((n + 1) / 2) as nat;
        lemma_level_index(h, (level - 1) as nat, i);
        let q = pow2((level - 1) as nat);
        lemma_pow2_unfold(level);
        assert(i * pow2(level) == 2 * (i * q)) by (nonlinear_arith)
            requires
                pow2(level) == 2 * q,
        ;
    }
}

/// The pyramid over `n >= 1` samples stops at the first level of one entry.
pub proof fn lemma_level_count(n: nat, k: nat)
    requires
        n >= 1,
        level_len(n, k) == 1,
        forall|l: nat| l < k ==> level_len(n, l) > 1,
    ensures
        k + 1 == level_count_for(n),
    decreases n,
{
    if n == 1 {
        if k > 0 {
            assert(level_len(n, 0) > 1);
        }
    } else {
        assert(level_len(n, 0) == n);
        let h = ((n + 1) / 2) as nat;
        assert(k > 0);
        assert forall|l: nat| l < (k - 1) as nat implies level_len(h, l) > 1 by {
            assert(level_len(n, l + 1) == level_len(h, l));
            assert(level_len(n, l + 1) > 1);
        }
        lemma_level_count(h, (k - 1) as nat);
    }
}

/// The last level of the pyramid has one entry and every level below it more.
pub proof fn lemma_level_count_shape(n: nat)
    requires
        n >= 1,
    ensures
        level_len(n, (level_count_for(n) - 1) as nat) == 1,
        forall|l: nat| l < level_count_for(n) - 1 ==> level_len(n, l) > 1,
    decreases n,
{
    if n > 1 {
        let h = ((n + 1) / 2) as nat;
        lemma_level_count_shape(h);
        assert forall|l: nat| l < level_count_for(n) - 1 implies level_len(n, l) > 1 by {
            if l > 0 {
                assert(level_len(n, l) == level_len(h, (l - 1) as nat));
            }
        }
    }
}

/// Entry `i` of level `level + 1` covers the samples of entries `2i` and
/// `2i + 1` of level `level`, or of entry `2i` alone when it is the last one.
proof fn lemma_block_split(s: Seq<u32>, level: nat, i: int)
    requires
        0 <= i < level_len(s.len(), level + 1),
    ensures
        2 * i < level_len(s.len(), level),
        2 * i + 1 < level_len(s.len(), level) ==> block(s, level + 1, i) == block(
            s,
            level,
            2 * i,
        ) + block(s, level, 2 * i + 1),
        2 * i + 1 >= level_len(s.len(), level) ==> block(s, level + 1, i) == block(
            s,
            level,
            2 * i,
        ),
        block(s, level, 2 * i).len() > 0,
        2 * i + 1 < level_len(s.len(), level) ==> block(s, level, 2 * i + 1).len() > 0,
{
    let n = s.len();
    let w = pow2(level) as int;
    lemma_pow2_unfold(level + 1);
    lemma_pow2_pos(level);
    let ww = pow2(level + 1) as int;
    assert(ww == 2 * w);
    lemma_level_index(n, level + 1, i as nat);
    lemma_level_index(n, level, (2 * i) as nat);
    lemma_level_index(n, level, (2 * i + 1) as nat);
    assert(i * ww == (2 * i) * w && (i + 1) * ww == (2 * i + 2) * w && (2 * i + 1) * w == (2 * i) * w + w
        && (2 * i + 2) * w == (2 * i + 1) * w + w) by (nonlinear_arith)
        requires
            ww == 2 * w,
    ;
    let a = (2 * i) * w;
    let b = (2 * i + 1) * w;
    let c = (2 * i + 2) * w;
    if b < n {
        let hi = if c < n { c } else { n as int };
        assert(s.subrange(a, b) + s.subrange(b, hi) =~= s.subrange(a, hi));
    }
}

/// An entry of level 0 is its sample.
proof fn lemma_block_level0(s: Seq<u32>, i: int)
    requires
        0 <= i < s.len(),
    ensures
        block(s, 0, i) == seq![s[i]],
        entry(s, 0, i) == (MinMax { min: s[i], max: s[i] }),
{
    lemma2_to64();
    assert(block(s, 0, i) =~= seq![s[i]]);
}

/// Each entry above level 0 merges the two entries below it (or carries the
/// last one up when the level below has an odd length).
pub proof fn lemma_entry_merges(s: Seq<u32>, level: nat, i: int)
    requires
        0 <= i < level_len(s.len(), level + 1),
    ensures
        2 * i + 1 < level_len(s.len(), level) ==> entry(s, level + 1, i) == MinMax::merge_spec(
            entry(s, level, 2 * i),
            entry(s, level, 2 * i + 1),
        ),
        2 * i + 1 >= level_len(s.len(), level) ==> entry(s, level + 1, i) == entry(
            s,
            level,
            2 * i,
        ),
{
    lemma_block_split(s, level, i);
    if 2 * i + 1 < level_len(s.len(), level) {
        lemma_seq_min_concat(block(s, level, 2 * i), block(s, level, 2 * i + 1));
        lemma_seq_max_concat(block(s, level, 2 * i), block(s, level, 2 * i + 1));
    }
}

impl MinMax {
    /// The merge of two spans: the span of both runs together.
    pub open spec fn merge_spec(a: MinMax, b: MinMax) -> MinMax {
        MinMax { min: min_sample(a.min, b.min), max: max_sample(a.max, b.max) }
    }

    /// The span of a single sample.
    pub fn from_sample(val: u32) -> (r: MinMax)
        ensures
            r == (MinMax { min: val, max: val }),
    {
        MinMax { min: val, max: val }
    }

    /// Merge two spans into one that covers both.
    pub fn merge(a: MinMax, b: MinMax) -> (r: MinMax)
        ensures
            r == MinMax::merge_spec(a, b),
    {
        MinMax { min: min_of(a.min, b.min), max: max_of(a.max, b.max) }
    }
}

/// `floor(log2(x))`, and 0 for `x <= 1`.
pub open spec fn log2_floor(x: nat) -> nat
    decreases x,
{
    if x <= 1 {
        0
    } else {
        1 + log2_floor(x / 2)
    }
}

/// The level a query reads: the highest level whose entries each cover no more
/// samples than fall into one of `target` buckets over `range_len` samples,
/// capped at the top level. An empty range or no bucket reads level 0.
pub open spec fn chosen_level(range_len: nat, target: nat, count: nat) -> nat {
    if range_len == 0 || target == 0 {
        0
    } else {
        let l = log2_floor(range_len / target);
        if l < count - 1 {
            l
        } else {
            (count - 1) as nat
        }
    }
}

/// First sample index a query covers: `start`, kept inside the data.
pub open spec fn clamped_start(n: nat, start: nat) -> nat {
    if start < n - 1 {
        start
    } else {
        (n - 1) as nat
    }
}

/// End (exclusive) of the samples a query covers: `end`, kept inside the data
/// and at least one past the clamped start.
pub open spec fn clamped_end(n: nat, start: nat, end: nat) -> nat {
    let s = clamped_start(n, start);
    let e = if end < n {
        end
    } else {
        n
    };
    if e > s + 1 {
        e
    } else {
        s + 1
    }
}

/// The level that `query(start, end, target)` reads over `n` samples.
pub open spec fn query_level(n: nat, start: nat, end: nat, target: nat) -> nat {
    let s = clamped_start(n, start);
    let e = clamped_end(n, start, end);
    chosen_level((e - s) as nat, target, level_count_for(n))
}

/// Index, on the level read, of the first entry under the clamped range: the
/// clamped start divided by the entry width.
pub open spec fn query_first(n: nat, start: nat, end: nat, target: nat) -> nat {
    clamped_start(n, start) / pow2(query_level(n, start, end, target))
}

/// Index, on the level read, one past the last entry under the clamped range:
/// the clamped end divided by the entry width, rounded up, kept within the level.
pub open spec fn query_last(n: nat, start: nat, end: nat, target: nat) -> nat {
    let l = query_level(n, start, end, target);
    let w = pow2(l);
    let c = ((clamped_end(n, start, end) + w - 1) / (w as int)) as nat;
    if c < level_len(n, l) {
        c
    } else {
        level_len(n, l)
    }
}

/// Number of entries of the level read that lie under the clamped range.
pub open spec fn query_width(n: nat, start: nat, end: nat, target: nat) -> nat {
    (query_last(n, start, end, target) - query_first(n, start, end, target)) as nat
}

/// Number of entries a query returns: one per entry under the range when
/// there are at most `target + 1` of those (or `target` is 0), and otherwise
/// `target`.
pub open spec fn query_buckets(n: nat, start: nat, end: nat, target: nat) -> nat {
    let m = query_width(n, start, end, target);
    if target == 0 || m <= target + 1 {
        m
    } else {
        target
    }
}

/// Offset of the first of `m` consecutive entries dealt into `g` buckets that
/// bucket `k` takes: each bucket takes `m / g` entries, the first `m % g`
/// buckets one more.
pub open spec fn bucket_start(m: nat, g: nat, k: nat) -> nat {
    k * (m / g) + if k < m % g {
        k
    } else {
        m % g
    }
}

/// The samples `[a * 2^level, min(b * 2^level, n))` under entries `a..b` of
/// level `level`.
pub open spec fn run(s: Seq<u32>, level: nat, a: int, b: int) -> Seq<u32> {
    let w = pow2(level) as int;
    let hi = b * w;
    s.subrange(a * w, if hi < s.len() { hi } else { s.len() as int })
}

/// First sample covered by bucket `k` of a query.
pub open spec fn bucket_lo(n: nat, start: nat, end: nat, target: nat, k: nat) -> int {
    let m = query_width(n, start, end, target);
    let g = query_buckets(n, start, end, target);
    ((query_first(n, start, end, target) + bucket_start(m, g, k)) * pow2(
        query_level(n, start, end, target),
    )) as int
}

/// One past the last sample covered by bucket `k` of a query.
pub open spec fn bucket_hi(n: nat, start: nat, end: nat, target: nat, k: nat) -> int {
    let m = query_width(n, start, end, target);
    let g = query_buckets(n, start, end, target);
    let h = ((query_first(n, start, end, target) + bucket_start(m, g, k + 1)) * pow2(
        query_level(n, start, end, target),
    )) as int;
    if h < n {
        h
    } else {
        n as int
    }
}

/// What `query(start, end, target)` returns over the samples `s`: one span per
/// bucket, of the samples under that bucket's entries of the level read.
pub open spec fn query_result(s: Seq<u32>, start: nat, end: nat, target: nat) -> Seq<MinMax> {
    let n = s.len();
    Seq::new(
        query_buckets(n, start, end, target),
        |k: int|
            span(
                s.subrange(
                    bucket_lo(n, start, end, target, k as nat),
                    bucket_hi(n, start, end, target, k as nat),
                ),
            ),
    )
}

proof fn lemma_log2_floor_le(x: nat)
    ensures
        log2_floor(x) <= x,
    decreases x,
{
    if x > 1 {
        lemma_log2_floor_le(x / 2);
    }
}

/// `2^log2_floor(x) <= x < 2^(log2_floor(x) + 1)` for `x >= 1`.
pub proof fn lemma_log2_floor_bounds(x: nat)
    requires
        x >= 1,
    ensures
        pow2(log2_floor(x)) <= x < pow2(log2_floor(x) + 1),
    decreases x,
{
    lemma2_to64();
    if x > 1 {
        let h = x / 2;
        lemma_log2_floor_bounds(h);
        lemma_pow2_unfold(log2_floor(x));
        lemma_pow2_unfold(log2_floor(x) + 1);
    }
}

/// A power of two that fits in a `usize` has an exponent below its width.
proof fn lemma_pow2_fits_usize(l: nat)
    requires
        pow2(l) <= usize::MAX,
    ensures
        l < usize::BITS,
{
    vstd::layout::unsigned_int_max_values();
    if l > usize::BITS {
        lemma_pow2_strictly_increases(usize::BITS as nat, l);
    }
}

/// The level a query reads over `range_len >= target > 0` samples is the
/// highest whose entries hold at most `range_len / target` samples each:
/// `2^L * target <= range_len < 2^(L + 1) * target` for `L = log2_floor(range_len / target)`.
pub proof fn lemma_level_fits_bucket(range_len: nat, target: nat)
    requires
        target > 0,
        range_len >= target,
    ensures
        pow2(log2_floor(range_len / target)) * target <= range_len,
        range_len < pow2(log2_floor(range_len / target) + 1) * target,
{
    let q = range_len / target;
    vstd::arithmetic::div_mod::lemma_fundamental_div_mod(range_len as int, target as int);
    vstd::arithmetic::div_mod::lemma_div_is_ordered(target as int, range_len as int, target as int);
    vstd::arithmetic::div_mod::lemma_div_by_self(target as int);
    lemma_log2_floor_bounds(q);
    let p = pow2(log2_floor(q));
    let pp = pow2(log2_floor(q) + 1);
    let r = range_len % target;
    assert(p * target <= q * target && q * target <= range_len && range_len < (q + 1) * target
        && (q + 1) * target <= pp * target) by (nonlinear_arith)
        requires
            p <= q,
            q + 1 <= pp,
            range_len == target * q + r,
            0 <= r < target,
            target > 0,
    ;
}

/// The top level holds one entry: the span of the whole dataset.
pub proof fn lemma_top_level_spans_all(s: Seq<u32>)
    requires
        s.len() >= 1,
    ensures
        level_len(s.len(), (level_count_for(s.len()) - 1) as nat) == 1,
        entry(s, (level_count_for(s.len()) - 1) as nat, 0) == span(s),
{
    let n = s.len();
    let top = (level_count_for(n) - 1) as nat;
    lemma_level_count_shape(n);
    lemma_level_index(n, top, 1);
    lemma2_to64();
    assert(block(s, top, 0) =~= s);
}

/// The entries of the level read that lie under the clamped range: a
/// non-empty run within the level, starting at or before the clamped start and
/// ending at or after the clamped end.
proof fn lemma_level_slice(n: nat, start: nat, end: nat, target: nat)
    requires
        n >= 1,
    ensures
        query_first(n, start, end, target) < query_last(n, start, end, target),
        query_last(n, start, end, target) <= level_len(n, query_level(n, start, end, target)),
        query_first(n, start, end, target) * pow2(query_level(n, start, end, target))
            <= clamped_start(n, start),
        clamped_end(n, start, end) <= query_last(n, start, end, target) * pow2(
            query_level(n, start, end, target),
        ),
        clamped_end(n, start, end) <= n,
{
    let l = query_level(n, start, end, target);
    let w = pow2(l) as int;
    let lo = clamped_start(n, start) as int;
    let hi = clamped_end(n, start, end) as int;
    let f = query_first(n, start, end, target);
    let c = (hi + w - 1) / w;
    let len = level_len(n, l);
    lemma_pow2_pos(l);
    vstd::arithmetic::div_mod::lemma_fundamental_div_mod(lo, w);
    vstd::arithmetic::div_mod::lemma_mod_bound(lo, w);
    vstd::arithmetic::div_mod::lemma_fundamental_div_mod(hi - 1, w);
    vstd::arithmetic::div_mod::lemma_mod_bound(hi - 1, w);
    vstd::arithmetic::div_mod::lemma_div_is_ordered(lo, hi - 1, w);
    vstd::arithmetic::div_mod::lemma_div_plus_one(hi - 1, w);
    assert(f * w <= lo) by (nonlinear_arith)
        requires
            lo == w * (lo / w) + lo % w,
            lo % w >= 0,
            f == lo / w,
    ;
    assert(hi <= c * w) by (nonlinear_arith)
        requires
            hi - 1 == w * ((hi - 1) / w) + (hi - 1) % w,
            (hi - 1) % w < w,
            c == (hi - 1) / w + 1,
    ;
    lemma_level_index(n, l, f);
    lemma_level_index(n, l, len);
}

/// How `m` entries are dealt into `1 <= g <= m` buckets: bucket `k` takes
/// `m / g` entries, one more for the first `m % g` buckets, so every bucket is
/// non-empty and the buckets use up the entries exactly.
pub proof fn lemma_bucket_start(m: nat, g: nat, k: nat)
    requires
        1 <= g <= m,
        k < g,
    ensures
        m / g >= 1,
        bucket_start(m, g, 0) == 0,
        bucket_start(m, g, g) == m,
        bucket_start(m, g, k + 1) == bucket_start(m, g, k) + m / g + (if k < m % g {
            1int
        } else {
            0int
        }),
        bucket_start(m, g, k) + (g - k) <= m,
{
    let q = m / g;
    let r = m % g;
    vstd::arithmetic::div_mod::lemma_fundamental_div_mod(m as int, g as int);
    vstd::arithmetic::div_mod::lemma_mod_bound(m as int, g as int);
    if q == 0 {
        assert(g * q == 0) by (nonlinear_arith)
            requires
                q == 0,
        ;
    }
    assert((k + 1) * q == k * q + q && g * q == q * g && 0 * q == 0) by (nonlinear_arith);
    assert(k * q + (g - k) <= g * q) by (nonlinear_arith)
        requires
            q >= 1,
            k < g,
    ;
}

/// Extending a run of entries by the next entry of the level extends its span
/// by that entry's span.
proof fn lemma_run_extend(s: Seq<u32>, level: nat, a: int, b: int)
    requires
        0 <= a < b < level_len(s.len(), level),
    ensures
        run(s, level, a, b + 1) == run(s, level, a, b) + block(s, level, b),
        run(s, level, a, b).len() > 0,
        block(s, level, b).len() > 0,
        span(run(s, level, a, b + 1)) == MinMax::merge_spec(
            span(run(s, level, a, b)),
            entry(s, level, b),
        ),
{
    let n = s.len();
    let w = pow2(level) as int;
    lemma_pow2_pos(level);
    lemma_level_index(n, level, b as nat);
    assert(a * w < b * w && b * w < (b + 1) * w) by (nonlinear_arith)
        requires
            a < b,
            w > 0,
    ;
    let hi = if (b + 1) * w < n {
        (b + 1) * w
    } else {
        n as int
    };
    assert(s.subrange(a * w, b * w) + s.subrange(b * w, hi) =~= s.subrange(a * w, hi));
    lemma_seq_min_concat(run(s, level, a, b), block(s, level, b));
    lemma_seq_max_concat(run(s, level, a, b), block(s, level, b));
}

/// The number of entries a query returns: one per sample of the clamped range
/// when there are no more samples than buckets (or no bucket is asked for),
/// and otherwise `target` or `target + 1`.
pub proof fn lemma_query_len(s: Seq<u32>, start: nat, end: nat, target: nat)
    requires
        s.len() >= 1,
    ensures
        target == 0 || target >= clamped_end(s.len(), start, end) - clamped_start(s.len(), start)
            ==> query_result(s, start, end, target).len() == clamped_end(s.len(), start, end)
            - clamped_start(s.len(), start),
        1 <= target <= clamped_end(s.len(), start, end) - clamped_start(s.len(), start)
            ==> target <= query_result(s, start, end, target).len() <= target + 1,
{
    let n = s.len();
    lemma_level_slice(n, start, end, target);
    let l = query_level(n, start, end, target);
    let w = pow2(l) as int;
    let lo = clamped_start(n, start) as int;
    let hi = clamped_end(n, start, end) as int;
    let r = hi - lo;
    let f = query_first(n, start, end, target) as int;
    let la = query_last(n, start, end, target) as int;
    let m = la - f;
    lemma_pow2_pos(l);
    lemma2_to64();
    if target == 0 || target >= r {
        if target > r {
            vstd::arithmetic::div_mod::lemma_basic_div(r, target as int);
        } else if target == r {
            vstd::arithmetic::div_mod::lemma_div_basics(r);
        }
        assert(l == 0);
        assert(w == 1);
        vstd::arithmetic::div_mod::lemma_div_basics(lo);
        vstd::arithmetic::div_mod::lemma_div_basics(hi);
        assert(f == lo);
        assert((hi + w - 1) / w == hi);
        lemma_level_index(n, 0, hi as nat);
        assert(m == r);
    } else {
        let lf = log2_floor((r / (target as int)) as nat);
        lemma_level_fits_bucket(r as nat, target);
        if l < lf {
            lemma_pow2_strictly_increases(l, lf);
        }
        let pf = pow2(lf) as int;
        assert(w * target <= r) by (nonlinear_arith)
            requires
                w <= pf,
                pf * target <= r,
                target > 0,
        ;
        assert(m >= target) by (nonlinear_arith)
            requires
                f * w <= lo,
                hi <= la * w,
                r == hi - lo,
                w * target <= r,
                m == la - f,
                w > 0,
        ;
    }
}

/// Bucket `k` of a query covers a non-empty run of samples.
proof fn lemma_bucket_bounds(n: nat, start: nat, end: nat, target: nat, k: nat)
    requires
        n >= 1,
        k < query_buckets(n, start, end, target),
    ensures
        0 <= bucket_lo(n, start, end, target, k) < bucket_hi(n, start, end, target, k) <= n,
{
    lemma_level_slice(n, start, end, target);
    let l = query_level(n, start, end, target);
    let w = pow2(l) as int;
    let f = query_first(n, start, end, target) as int;
    let m = query_width(n, start, end, target);
    let g = query_buckets(n, start, end, target);
    lemma_pow2_pos(l);
    lemma_bucket_start(m, g, k);
    let i = f + bucket_start(m, g, k);
    let j = f + bucket_start(m, g, k + 1);
    lemma_level_index(n, l, i as nat);
    assert(0 <= i * w < j * w) by (nonlinear_arith)
        requires
            0 <= i < j,
            w > 0,
    ;
}

/// The buckets of a query cut the samples into adjoining non-empty runs that
/// together cover the clamped range: the first starts at or before the
/// clamped start, each ends where the next starts, and the last ends at or
/// after the clamped end.
pub proof fn lemma_query_covers(n: nat, start: nat, end: nat, target: nat)
    requires
        n >= 1,
    ensures
        query_buckets(n, start, end, target) >= 1,
        0 <= bucket_lo(n, start, end, target, 0) <= clamped_start(n, start),
        clamped_end(n, start, end) <= bucket_hi(
            n,
            start,
            end,
            target,
            (query_buckets(n, start, end, target) - 1) as nat,
        ),
        forall|k: nat|
            k < query_buckets(n, start, end, target) ==> 0 <= #[trigger] bucket_lo(
                n,
                start,
                end,
                target,
                k,
            ) < bucket_hi(n, start, end, target, k) <= n,
        forall|k: nat|
            k + 1 < query_buckets(n, start, end, target) ==> #[trigger] bucket_hi(
                n,
                start,
                end,
                target,
                k,
            ) == bucket_lo(n, start, end, target, k + 1),
{
    lemma_level_slice(n, start, end, target);
    let l = query_level(n, start, end, target);
    let w = pow2(l) as int;
    let f = query_first(n, start, end, target) as int;
    let m = query_width(n, start, end, target);
    let g = query_buckets(n, start, end, target);
    let len = level_len(n, l);
    lemma_pow2_pos(l);
    lemma_bucket_start(m, g, 0);
    assert forall|k: nat| k < g implies 0 <= #[trigger] bucket_lo(n, start, end, target, k)
        < bucket_hi(n, start, end, target, k) <= n by {
        lemma_bucket_bounds(n, start, end, target, k);
    }
    assert forall|k: nat| k + 1 < g implies #[trigger] bucket_hi(n, start, end, target, k)
        == bucket_lo(n, start, end, target, k + 1) by {
        lemma_bucket_start(m, g, k + 1);
        lemma_level_index(n, l, (f + bucket_start(m, g, k + 1)) as nat);
    }
    lemma_bucket_start(m, g, (g - 1) as nat);
    assert(bucket_lo(n, start, end, target, 0) == f * w);
}

/// Every sample under a bucket lies within that bucket's span.
pub proof fn lemma_query_bounds_samples(
    s: Seq<u32>,
    start: nat,
    end: nat,
    target: nat,
    k: nat,
    j: int,
)
    requires
        s.len() >= 1,
        k < query_buckets(s.len(), start, end, target),
        bucket_lo(s.len(), start, end, target, k) <= j < bucket_hi(s.len(), start, end, target, k),
        !is_nan(s[j]),
    ensures
        ({
            let e = query_result(s, start, end, target)[k as int];
            &&& !is_nan(e.min) && !is_nan(e.max)
            &&& rank(e.min) <= rank(s[j]) <= rank(e.max)
        }),
{
    let n = s.len();
    lemma_bucket_bounds(n, start, end, target, k);
    let lo = bucket_lo(n, start, end, target, k);
    let hi = bucket_hi(n, start, end, target, k);
    assert(0 <= lo < hi <= n);
    let run_k = s.subrange(lo, hi);
    assert(query_result(s, start, end, target)[k as int] == span(run_k));
    assert(run_k[j - lo] == s[j]);
    lemma_seq_min_is_least(run_k);
    lemma_seq_max_is_greatest(run_k);
}

/// A query of one sample with one bucket returns that sample's span.
pub proof fn lemma_query_single(s: Seq<u32>, i: nat)
    requires
        i < s.len(),
    ensures
        query_result(s, i, i + 1, 1) == seq![MinMax { min: s[i as int], max: s[i as int] }],
{
    let n = s.len();
    lemma2_to64();
    assert(clamped_start(n, i) == i);
    assert(clamped_end(n, i, i + 1) == i + 1);
    assert(log2_floor(1) == 0);
    vstd::arithmetic::div_mod::lemma_div_basics(1);
    vstd::arithmetic::div_mod::lemma_div_basics(i as int);
    vstd::arithmetic::div_mod::lemma_div_basics((i + 1) as int);
    assert(query_level(n, i, i + 1, 1) == 0);
    assert(query_first(n, i, i + 1, 1) == i);
    assert(level_len(n, 0) == n);
    assert(query_last(n, i, i + 1, 1) == i + 1);
    assert(query_width(n, i, i + 1, 1) == 1);
    assert(query_buckets(n, i, i + 1, 1) == 1);
    lemma_bucket_start(1, 1, 0);
    let lo = bucket_lo(n, i, i + 1, 1, 0);
    let hi = bucket_hi(n, i, i + 1, 1, 0);
    assert(lo == i && hi == i + 1);
    assert(s.subrange(lo, hi) =~= seq![s[i as int]]);
    assert(query_result(s, i, i + 1, 1) =~= seq![MinMax { min: s[i as int], max: s[i as int] }]);
}

/// The result of a query, bucket by bucket, as the span of a run of entries of
/// the level read.
proof fn lemma_query_result_by_runs(
    s: Seq<u32>,
    start: nat,
    end: nat,
    target: nat,
    level: nat,
    first: nat,
    m: nat,
    g: nat,
)
    requires
        level == query_level(s.len(), start, end, target),
        first == query_first(s.len(), start, end, target),
        m == query_width(s.len(), start, end, target),
        g == query_buckets(s.len(), start, end, target),
    ensures
        query_result(s, start, end, target).len() == g,
        forall|k: int|
            0 <= k < g ==> #[trigger] query_result(s, start, end, target)[k] == span(
                run(
                    s,
                    level,
                    (first + bucket_start(m, g, k as nat)) as int,
                    (first + bucket_start(m, g, (k + 1) as nat)) as int,
                ),
            ),
{
}

/// When at most `target + 1` entries of the level read lie under the range (or
/// `target` is 0), a query returns exactly those entries.
pub proof fn lemma_query_keeps_level_entries(s: Seq<u32>, start: nat, end: nat, target: nat)
    requires
        s.len() >= 1,
        target == 0 || query_width(s.len(), start, end, target) <= target + 1,
    ensures
        query_result(s, start, end, target).len() == query_width(s.len(), start, end, target),
        forall|k: int|
            0 <= k < query_width(s.len(), start, end, target) ==> #[trigger] query_result(
                s,
                start,
                end,
                target,
            )[k] == entry(
                s,
                query_level(s.len(), start, end, target),
                query_first(s.len(), start, end, target) + k,
            ),
{
    let n = s.len();
    let l = query_level(n, start, end, target);
    let f = query_first(n, start, end, target);
    let m = query_width(n, start, end, target);
    lemma_level_slice(n, start, end, target);
    lemma_query_result_by_runs(s, start, end, target, l, f, m, m);
    vstd::arithmetic::div_mod::lemma_div_basics(m as int);
    vstd::arithmetic::div_mod::lemma_mod_self_0(m as int);
    assert forall|k: int| 0 <= k < m implies #[trigger] query_result(s, start, end, target)[k]
        == entry(s, l, f + k) by {
        assert(bucket_start(m, m, k as nat) == k);
        assert(bucket_start(m, m, (k + 1) as nat) == k + 1);
    }
}

/// Whether `levels` is, level by level and entry by entry, the pyramid built
/// over the samples `s` (from level 0 up to as many levels as it holds).
pub open spec fn is_pyramid(levels: Seq<Vec<MinMax>>, s: Seq<u32>) -> bool {
    &&& levels.len() >= 1
    &&& forall|l: int|
        0 <= l < levels.len() ==> (#[trigger] levels[l])@.len() == level_len(s.len(), l as nat)
    &&& forall|l: int, i: int|
        0 <= l < levels.len() && 0 <= i < levels[l]@.len() ==> #[trigger] levels[l]@[i] == entry(
            s,
            l as nat,
            i,
        )
}

/// A pre-computed level-of-detail pyramid over a non-empty run of samples.
pub struct LodPyramid {
    /// `levels[0]` holds the samples, `levels[1]` every two merged, and so on.
    levels: Vec<Vec<MinMax>>,
    /// Number of samples.
    sample_count: usize,
}

impl View for LodPyramid {
    type V = Seq<u32>;

    /// The samples the pyramid was built over.
    closed spec fn view(&self) -> Seq<u32> {
        self.levels@[0]@.map_values(|m: MinMax| m.min)
    }
}

impl LodPyramid {
    #[verifier::type_invariant]
    spec fn well_formed(self) -> bool {
        &&& self.levels@.len() >= 1
        &&& self.sample_count == self@.len()
        &&& self@.len() >= 1
        &&& is_pyramid(self.levels@, self@)
        &&& self.levels@.len() == level_count_for(self@.len())
    }

    /// Build the level above `prev`, which is level `level` of the pyramid over `s`.
    fn next_level(prev: &Vec<MinMax>, Ghost(s): Ghost<Seq<u32>>, Ghost(level): Ghost<nat>) -> (next:
        Vec<MinMax>)
        requires
            prev@.len() == level_len(s.len(), level),
            prev@.len() > 1,
            forall|i: int| 0 <= i < prev@.len() ==> #[trigger] prev@[i] == entry(s, level, i),
        ensures
            next@.len() == level_len(s.len(), level + 1),
            next@.len() < prev@.len(),
            forall|i: int| 0 <= i < next@.len() ==> #[trigger] next@[i] == entry(s, level + 1, i),
    {
        let len = prev.len();
        let half = len / 2 + len % 2;
        proof {
            lemma_level_len_step(s.len(), level);
        }
        let mut next: Vec<MinMax> = Vec::new();
        let mut j: usize = 0;
        while j < half
            invariant
                len == prev@.len(),
                len > 1,
                half == (len + 1) / 2,
                half == level_len(s.len(), level + 1),
                len == level_len(s.len(), level),
                j <= half,
                next@.len() == j,
                forall|i: int| 0 <= i < prev@.len() ==> #[trigger] prev@[i] == entry(s, level, i),
                forall|i: int| 0 <= i < j ==> #[trigger] next@[i] == entry(s, level + 1, i),
            decreases half - j,
        {
            let k = 2 * j;
            let m = if k + 1 < len {
                MinMax::merge(prev[k], prev[k + 1])
            } else {
                prev[k]
            };
            proof {
                lemma_entry_merges(s, level, j as int);
            }
            next.push(m);
            j = j + 1;
        }
        next
    }

    /// Build the pyramid from raw samples. Fails with `EmptyData` exactly when
    /// there are none.
    pub fn from_samples(data: &[u32]) -> (r: Result<LodPyramid, Error>)
        ensures
            data@.len() == 0 ==> r matches Err(Error::EmptyData),
            data@.len() > 0 ==> (r matches Ok(p) && p@ == data@),
    {
        let n = data.len();
        if n == 0 {
            return Err(Error::EmptyData);
        }
        let mut base: Vec<MinMax> = Vec::new();
        let mut i: usize = 0;
        while i < n
            invariant
                n == data@.len(),
                i <= n,
                base@.len() == i,
                forall|j: int| 0 <= j < i ==> #[trigger] base@[j] == entry(data@, 0, j),
            decreases n - i,
        {
            proof {
                lemma_block_level0(data@, i as int);
            }
            base.push(MinMax::from_sample(data[i]));
            i = i + 1;
        }
        let mut levels: Vec<Vec<MinMax>> = Vec::new();
        levels.push(base);
        while levels[levels.len() - 1].len() != 1
            invariant
                n == data@.len(),
                n >= 1,
                is_pyramid(levels@, data@),
                forall|l: nat| l < levels@.len() - 1 ==> level_len(n as nat, l) > 1,
            decreases levels@[levels@.len() - 1]@.len(),
        {
            let top = levels.len() - 1;
            proof {
                lemma_level_index(n as nat, top as nat, 0);
                lemma2_to64();
            }
            let next = Self::next_level(&levels[top], Ghost(data@), Ghost(top as nat));
            let ghost old_levels = levels@;
            levels.push(next);
            proof {
                assert(levels@ == old_levels.push(next));
                assert forall|l: int|
                    0 <= l < levels@.len() implies (#[trigger] levels@[l])@.len() == level_len(
                    n as nat,
                    l as nat,
                ) by {
                    if l < top + 1 {
                        assert(levels@[l] == old_levels[l]);
                    }
                }
                assert forall|l: int, i: int|
                    0 <= l < levels@.len() && 0 <= i < levels@[l]@.len() implies #[trigger] levels@[l]@[i]
                    == entry(data@, l as nat, i) by {
                    if l < top + 1 {
                        assert(levels@[l] == old_levels[l]);
                    }
                }
            }
        }
        proof {
            lemma_level_count(n as nat, (levels@.len() - 1) as nat);
            assert forall|j: int| 0 <= j < n implies #[trigger] levels@[0]@[j].min == data@[j] by {
                lemma_block_level0(data@, j);
            }
            assert(levels@[0]@.map_values(|m: MinMax| m.min) =~= data@);
        }
        Ok(LodPyramid { levels, sample_count: n })
    }

    /// `floor(log2(x))`, and 0 for `x <= 1`.
    fn floor_log2(x: usize) -> (r: usize)
        ensures
            r == log2_floor(x as nat),
    {
        proof {
            lemma_log2_floor_le(x as nat);
        }
        let mut y = x;
        let mut r: usize = 0;
        while y > 1
            invariant
                r + log2_floor(y as nat) == log2_floor(x as nat),
                log2_floor(x as nat) <= x,
            decreases y,
        {
            y = y / 2;
            r = r + 1;
        }
        r
    }

    /// Choose the level to read for `target_count` buckets over the samples
    /// `[start, end)`: the highest level whose entries each cover no more than
    /// the samples of one bucket.
    fn choose_level(&self, start: usize, end: usize, target_count: usize) -> (r: usize)
        requires
            start <= end,
        ensures
            r == chosen_level((end - start) as nat, target_count as nat, level_count_for(self@.len())),
            r < level_count_for(self@.len()),
            r == 0 || pow2(r as nat) <= end - start,
    {
        proof {
            use_type_invariant(self);
        }
        let range_len = end - start;
        if range_len == 0 || target_count == 0 {
            return 0;
        }
        let per_bucket = range_len / target_count;
        let level = Self::floor_log2(per_bucket);
        let top = self.levels.len() - 1;
        proof {
            if level > 0 {
                lemma_log2_floor_bounds(per_bucket as nat);
                vstd::arithmetic::div_mod::lemma_div_is_ordered_by_denominator(
                    range_len as int,
                    1,
                    target_count as int,
                );
                if level > top {
                    lemma_pow2_strictly_increases(top as nat, level as nat);
                }
            }
        }
        if level < top {
            level
        } else {
            top
        }
    }

    /// The level a query reads and the entries of it under the clamped range:
    /// `(level, first, last)` with the entries `first..last`.
    fn level_slice(&self, start: usize, end: usize, target_count: usize) -> (r: (
        usize,
        usize,
        usize,
    ))
        ensures
            r.0 == query_level(self@.len(), start as nat, end as nat, target_count as nat),
            r.1 == query_first(self@.len(), start as nat, end as nat, target_count as nat),
            r.2 == query_last(self@.len(), start as nat, end as nat, target_count as nat),
            r.0 < self.levels@.len(),
            r.1 < r.2 <= self.levels@[r.0 as int]@.len(),
    {
        proof {
            use_type_invariant(self);
        }
        let ghost s = self@;
        let n = self.sample_count;
        let last = n - 1;
        let lo = if start < last {
            start
        } else {
            last
        };
        let hi = if end < n {
            end
        } else {
            n
        };
        let hi = if hi > lo + 1 {
            hi
        } else {
            lo + 1
        };
        let level = self.choose_level(lo, hi, target_count);
        let ghost w: int = pow2(level as nat) as int;
        proof {
            lemma_pow2_pos(level as nat);
            lemma2_to64();
            lemma_pow2_fits_usize(level as nat);
            vstd::bits::lemma_usize_shr_is_div(lo, level);
            vstd::bits::lemma_usize_shr_is_div((hi - 1) as usize, level);
        }
        let level_start = lo >> level;
        let level_end = ((hi - 1) >> level) + 1;
        let len = self.levels[level].len();
        let level_end = if level_end < len {
            level_end
        } else {
            len
        };
        proof {
            vstd::arithmetic::div_mod::lemma_fundamental_div_mod(lo as int, w);
            vstd::arithmetic::div_mod::lemma_mod_bound(lo as int, w);
            vstd::arithmetic::div_mod::lemma_div_is_ordered(lo as int, hi - 1, w);
            vstd::arithmetic::div_mod::lemma_div_plus_one(hi - 1, w);
            let x = lo as int;
            assert(level_start * w <= x) by (nonlinear_arith)
                requires
                    x == w * (x / w) + x % w,
                    x % w >= 0,
                    level_start == x / w,
            ;
            lemma_level_index(n as nat, level as nat, level_start as nat);
        }
        proof {
            lemma_level_slice(n as nat, start as nat, end as nat, target_count as nat);
        }
        (level, level_start, level_end)
    }

    /// Query the pyramid for about `target_count` min/max entries covering the
    /// samples `[start, end)`, the range first kept inside the data. It reads
    /// the highest level whose entries each hold no more samples than one
    /// bucket and returns that level's entries under the range, when there are
    /// at most `target_count + 1` of them; otherwise it deals them, in order,
    /// into `target_count` buckets and merges each bucket. A range of fewer
    /// samples than buckets, or a `target_count` of 0, gives one entry per
    /// sample.
    pub fn query(&self, start: usize, end: usize, target_count: usize) -> (r: Vec<MinMax>)
        ensures
            r@ == query_result(self@, start as nat, end as nat, target_count as nat),
    {
        proof {
            use_type_invariant(self);
        }
        let ghost s = self@;
        let (level, level_start, level_end) = self.level_slice(start, end, target_count);
        let m = level_end - level_start;
        let g = if target_count == 0 || m - 1 <= target_count {
            m
        } else {
            target_count
        };
        let out = Self::merge_buckets(
            &self.levels[level],
            Ghost(s),
            Ghost(level as nat),
            level_start,
            m,
            g,
        );
        proof {
            lemma_query_result_by_runs(
                s,
                start as nat,
                end as nat,
                target_count as nat,
                level as nat,
                level_start as nat,
                m as nat,
                g as nat,
            );
            assert(out@ =~= query_result(s, start as nat, end as nat, target_count as nat));
        }
        out
    }

    /// The span of the samples under entries `from..to` of `entries`, which is
    /// level `level` of the pyramid over `s`.
    fn merge_run(
        entries: &Vec<MinMax>,
        Ghost(s): Ghost<Seq<u32>>,
        Ghost(level): Ghost<nat>,
        from: usize,
        to: usize,
    ) -> (r: MinMax)
        requires
            entries@.len() == level_len(s.len(), level),
            forall|i: int| 0 <= i < entries@.len() ==> #[trigger] entries@[i] == entry(s, level, i),
            from < to <= entries@.len(),
        ensures
            r == span(run(s, level, from as int, to as int)),
    {
        let mut acc = entries[from];
        let mut j = from + 1;
        proof {
            assert(run(s, level, from as int, from + 1) == block(s, level, from as int));
        }
        while j < to
            invariant
                entries@.len() == level_len(s.len(), level),
                forall|i: int|
                    0 <= i < entries@.len() ==> #[trigger] entries@[i] == entry(s, level, i),
                from < j <= to <= entries@.len(),
                acc == span(run(s, level, from as int, j as int)),
            decreases to - j,
        {
            proof {
                lemma_run_extend(s, level, from as int, j as int);
            }
            acc = MinMax::merge(acc, entries[j]);
            j = j + 1;
        }
        acc
    }

    /// Deal the `m` entries of `entries` from `first` on into `g` buckets, in
    /// order, and give the span of each bucket.
    fn merge_buckets(
        entries: &Vec<MinMax>,
        Ghost(s): Ghost<Seq<u32>>,
        Ghost(level): Ghost<nat>,
        first: usize,
        m: usize,
        g: usize,
    ) -> (out: Vec<MinMax>)
        requires
            entries@.len() == level_len(s.len(), level),
            forall|i: int| 0 <= i < entries@.len() ==> #[trigger] entries@[i] == entry(s, level, i),
            1 <= g <= m,
            first + m <= entries@.len(),
        ensures
            out@.len() == g,
            forall|k: int|
                0 <= k < g ==> #[trigger] out@[k] == span(
                    run(
                        s,
                        level,
                        first + bucket_start(m as nat, g as nat, k as nat),
                        first + bucket_start(m as nat, g as nat, (k + 1) as nat),
                    ),
                ),
    {
        let q = m / g;
        let rem = m % g;
        let total = entries.len();
        let mut out: Vec<MinMax> = Vec::new();
        let mut pos = first;
        let mut k: usize = 0;
        while k < g
            invariant
                entries@.len() == level_len(s.len(), level),
                forall|i: int|
                    0 <= i < entries@.len() ==> #[trigger] entries@[i] == entry(s, level, i),
                1 <= g <= m,
                first + m <= entries@.len(),
                total == entries@.len(),
                q == m / g,
                rem == m % g,
                k <= g,
                pos == first + bucket_start(m as nat, g as nat, k as nat),
                out@.len() == k,
                forall|i: int|
                    0 <= i < k ==> #[trigger] out@[i] == span(
                        run(
                            s,
                            level,
                            first + bucket_start(m as nat, g as nat, i as nat),
                            first + bucket_start(m as nat, g as nat, (i + 1) as nat),
                        ),
                    ),
            decreases g - k,
        {
            proof {
                lemma_bucket_start(m as nat, g as nat, k as nat);
                if k + 1 < g {
                    lemma_bucket_start(m as nat, g as nat, (k + 1) as nat);
                }
            }
            let size = if k < rem {
                q + 1
            } else {
                q
            };
            assert(bucket_start(m as nat, g as nat, (k + 1) as nat) <= m);
            let stop = pos + size;
            let span_k = Self::merge_run(entries, Ghost(s), Ghost(level), pos, stop);
            out.push(span_k);
            pos = stop;
            k = k + 1;
        }
        out
    }

    /// Number of samples.
    pub fn len(&self) -> (r: usize)
        ensures
            r == self@.len(),
    {
        proof {
            use_type_invariant(self);
        }
        self.sample_count
    }

    /// Number of levels, level 0 included.
    pub fn level_count(&self) -> (r: usize)
        ensures
            r == level_count_for(self@.len()),
    {
        proof {
            use_type_invariant(self);
        }
        self.levels.len()
    }

    /// All levels of the pyramid, level 0 first.
    pub fn levels(&self) -> (r: &Vec<Vec<MinMax>>)
        ensures
            is_pyramid(r@, self@),
            r@.len() == level_count_for(self@.len()),
    {
        proof {
            use_type_invariant(self);
        }
        &self.levels
    }
}

} // verus!
