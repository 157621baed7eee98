//! What is done to a frame before it is analysed: linear resampling, the
//! Hanning window, normalisation and autocorrelation.
use vstd::prelude::*;
use crate::scalar::{
    canonical, key, less, magnitude, real_difference, real_of_count, real_product, real_quotient,
    real_sum, same, values, Real, HALF_BITS, ONE_BITS, TWO_PI_BITS,
};

verus! {

/// The pattern of 0.9999, the least ratio that counts as 1.
pub const UNITY_LOW_BITS: u64 = 0x3fef_ff2e_48e8_a71e;

/// The pattern of 1.0001, the greatest ratio that counts as 1.
pub const UNITY_HIGH_BITS: u64 = 0x3ff0_0068_db8b_ac71;

/// Whether a resampling ratio lies within 1e-4 of 1.
pub open spec fn near_unity(ratio: u64) -> bool {
    (less(UNITY_LOW_BITS, ratio) || same(UNITY_LOW_BITS, ratio)) && (less(ratio, UNITY_HIGH_BITS)
        || same(ratio, UNITY_HIGH_BITS))
}

/// Sample `i` of `src` resampled linearly to `m` samples: with `p = i (N - 1)
/// / (m - 1)` the position in `src`, the sample at `p` where `p` is whole,
/// else `src[floor p] + (src[ceil p] - src[floor p]) frac p`. A single output
/// sample is the first of `src`.
pub open spec fn resampled_at(src: Seq<u64>, m: int, i: int) -> u64 {
    if m <= 1 {
        src[0]
    } else {
        let position = i * (src.len() - 1);
        let low = position / (m - 1);
        let rest = position % (m - 1);
        if rest == 0 {
            src[low]
        } else {
            real_sum(
                src[low],
                real_product(
                    real_difference(src[low + 1], src[low]),
                    real_quotient(real_of_count(rest as usize), real_of_count((m - 1) as usize)),
                ),
            )
        }
    }
}

/// `src` resampled linearly to `m` samples.
pub open spec fn resampled(src: Seq<u64>, m: int) -> Seq<u64> {
    Seq::new(m as nat, |i: int| resampled_at(src, m, i))
}

/// Whether a resampling ratio lies within 1e-4 of 1.
pub fn is_near_unity(ratio: Real) -> (r: bool)
    ensures
        r == near_unity(ratio@),
{
    ratio.ge(Real::from_bits(UNITY_LOW_BITS)) && ratio.le(Real::from_bits(UNITY_HIGH_BITS))
}

/// Where output sample `i` of `m` falls among `n` input samples: the whole
/// part and the numerator of the fraction over `m - 1`.
fn position(i: usize, n: usize, m: usize) -> (p: (usize, usize))
    requires
        n >= 1,
        m >= 2,
        i < m,
    ensures
        p.0 == (i * (n - 1)) / (m - 1),
        p.1 == (i * (n - 1)) % (m - 1),
        p.0 < n,
        p.1 != 0 ==> p.0 + 1 < n,
{
    let span = (m - 1) as u128;
    assert(i * (n - 1) <= (m - 1) * (n - 1)) by (nonlinear_arith)
        requires
            i <= m - 1,
            n >= 1,
    ;
    assert((m - 1) * (n - 1) < 0x1_0000_0000_0000_0000 * 0x1_0000_0000_0000_0000)
        by (nonlinear_arith)
        requires
            0 <= m - 1 < 0x1_0000_0000_0000_0000,
            0 <= n - 1 < 0x1_0000_0000_0000_0000,
    ;
    let at = (i as u128) * ((n - 1) as u128);
    let low = at / span;
    let rest = at % span;
    assert(low <= n - 1 && (rest != 0 ==> low < n - 1)) by (nonlinear_arith)
        requires
            at <= span * (n - 1),
            span > 0,
            low == at / span,
            rest == at % span,
    ;
    (low as usize, rest as usize)
}

/// Whether `after` is what resampling `src` by `ratio` leaves in a buffer
/// that held `before`: with a ratio within 1e-4 of 1 the samples of `src` as
/// far as both reach, followed by the rest of `before`; else `src` resampled
/// linearly to the length of the buffer.
pub open spec fn resampling(src: Seq<Real>, ratio: u64, before: Seq<Real>, after: Seq<Real>) -> bool {
    &&& after.len() == before.len()
    &&& near_unity(ratio) ==> forall|i: int|
        0 <= i < before.len() ==> #[trigger] after[i] == (if i < src.len() {
            src[i]
        } else {
            before[i]
        })
    &&& !near_unity(ratio) ==> values(after) == resampled(values(src), before.len() as int)
}

/// Resamples `src` into `out`. With a ratio within 1e-4 of 1 the samples are
/// copied as far as both buffers reach and the rest of `out` stays as it was;
/// else `out` is filled with `src` resampled linearly to its length.
pub fn resample_linear(src: &[Real], ratio: Real, out: &mut [Real])
    requires
        old(out)@.len() >= 1 ==> src@.len() >= 1,
    ensures
        resampling(src@, ratio@, old(out)@, final(out)@),
{
    let n = src.len();
    let m = out.len();
    let ghost start = out@;
    if is_near_unity(ratio) {
        let mut i: usize = 0;
        while i < m && i < n
            invariant
                i <= m,
                i <= n,
                n == src@.len(),
                m == out@.len(),
                m == start.len(),
                forall|k: int| 0 <= k < i ==> #[trigger] out@[k] == src@[k],
                forall|k: int| i <= k < m ==> #[trigger] out@[k] == start[k],
            decreases m - i,
        {
            out[i] = src[i];
            i += 1;
        }
        return ;
    }
    let mut i: usize = 0;
    while i < m
        invariant
            i <= m,
            n == src@.len(),
            m == out@.len(),
            m >= 1 ==> n >= 1,
            forall|k: int|
                0 <= k < i ==> #[trigger] out@[k]@ == resampled_at(values(src@), m as int, k),
        decreases m - i,
    {
        if m == 1 {
            out[i] = src[0];
        } else {
            let (low, rest) = position(i, n, m);
            if rest == 0 {
                out[i] = src[low];
            } else {
                let a = src[low];
                let b = src[low + 1];
                let t = Real::from_count(rest).over(Real::from_count(m - 1));
                out[i] = a.plus(b.minus(a).times(t));
            }
        }
        i += 1;
    }
    assert(values(out@) =~= resampled(values(src@), m as int));
}

/// The Hanning weight for a phase whose cosine is `cosine`:
/// `0.5 (1 - cosine)`.
pub open spec fn hanning_weight_of(cosine: u64) -> u64 {
    real_product(HALF_BITS, real_difference(ONE_BITS, cosine))
}

/// Whether `after` is `before` times the Hanning weight of some cosine.
pub open spec fn hanning_weighted(before: u64, after: u64) -> bool {
    exists|cosine: u64| after == real_product(before, #[trigger] hanning_weight_of(cosine))
}

/// The phase of sample `i` of `len`, in radians: `2 pi (i / len)`.
pub open spec fn hanning_phase_of(i: usize, len: usize) -> u64 {
    real_product(TWO_PI_BITS, real_quotient(real_of_count(i), real_of_count(len)))
}

/// The phase of sample `i` of `len`, in radians, whose cosine the window
/// takes.
pub fn hanning_phase(i: usize, len: usize) -> (phase: Real)
    ensures
        phase@ == hanning_phase_of(i, len),
{
    Real::from_bits(TWO_PI_BITS).times(Real::from_count(i).over(Real::from_count(len)))
}

/// The Hanning weight for a phase whose cosine is `cosine`.
pub fn hanning_weight(cosine: Real) -> (w: Real)
    ensures
        w@ == hanning_weight_of(cosine@),
{
    Real::from_bits(HALF_BITS).times(Real::one().minus(cosine))
}

/// Multiplies sample `i` of the `L` samples by `0.5 (1 - cos(2 pi i / L))`.
/// The cosines' rounding is not fixed; `hanning_phase` states the phase whose
/// cosine is taken and `hanning_weight` the weight for a given cosine.
pub fn hanning(buf: &mut [Real])
    ensures
        final(buf)@.len() == old(buf)@.len(),
        forall|i: int|
            0 <= i < old(buf)@.len() ==> hanning_weighted(old(buf)@[i]@, #[trigger] final(buf)@[i]@),
{
    let ghost start = buf@;
    let len = buf.len();
    let mut i: usize = 0;
    while i < len
        invariant
            i <= len,
            len == buf@.len(),
            len == start.len(),
            forall|k: int| 0 <= k < i ==> hanning_weighted(start[k]@, #[trigger] buf@[k]@),
            forall|k: int| i <= k < len ==> #[trigger] buf@[k] == start[k],
        decreases len - i,
    {
        let cosine = hanning_phase(i, len).cos();
        let weight = hanning_weight(cosine);
        buf[i] = buf[i].times(weight);
        assert(buf@[i as int]@ == real_product(start[i as int]@, hanning_weight_of(cosine@)));
        i += 1;
    }
}

/// The greatest magnitude among the first `n` of `x`, 0 where there is
/// none; a NaN is passed over.
pub open spec fn peak_of(x: Seq<u64>, n: nat) -> u64
    decreases n,
{
    if n == 0 {
        0
    } else {
        let before = peak_of(x, (n - 1) as nat);
        let here = canonical(magnitude(x[n - 1]));
        if less(before, here) {
            here
        } else {
            before
        }
    }
}

/// Divides every sample by the greatest magnitude among them.
pub fn normalize(buf: &mut [Real])
    ensures
        final(buf)@.len() == old(buf)@.len(),
        forall|i: int|
            0 <= i < old(buf)@.len() ==> #[trigger] final(buf)@[i]@ == real_quotient(
                old(buf)@[i]@,
                peak_of(values(old(buf)@), old(buf)@.len()),
            ),
{
    let ghost start = buf@;
    let len = buf.len();
    let mut peak = Real::zero();
    let mut i: usize = 0;
    while i < len
        invariant
            i <= len,
            len == buf@.len(),
            buf@ == start,
            peak@ == peak_of(values(start), i as nat),
        decreases len - i,
    {
        let here = buf[i].abs();
        if peak.lt(here) {
            peak = here;
        }
        i += 1;
    }
    let mut i: usize = 0;
    while i < len
        invariant
            i <= len,
            len == buf@.len(),
            len == start.len(),
            peak@ == peak_of(values(start), len as nat),
            forall|k: int| 0 <= k < i ==> #[trigger] buf@[k]@ == real_quotient(start[k]@, peak@),
            forall|k: int| i <= k < len ==> #[trigger] buf@[k] == start[k],
        decreases len - i,
    {
        buf[i] = buf[i].over(peak);
        i += 1;
    }
}

/// `x[0] x[lag] + ... + x[n - 1] x[n - 1 + lag]`, summed in this order from
/// 0.
pub open spec fn lag_sum(x: Seq<u64>, lag: int, n: nat) -> u64
    decreases n,
{
    if n == 0 {
        0
    } else {
        real_sum(lag_sum(x, lag, (n - 1) as nat), real_product(x[n - 1], x[n - 1 + lag]))
    }
}

/// The autocorrelation of `x` at `lag`: the sum of the products of all pairs
/// of samples `lag` apart; 0 where `x` is no longer than the lag.
pub open spec fn autocorrelation(x: Seq<u64>, lag: int) -> u64 {
    if lag >= x.len() {
        0
    } else {
        lag_sum(x, lag, (x.len() - lag) as nat)
    }
}

/// Writes the autocorrelation of `signal` at the lags `0..n_lags` to the
/// front of `out`; the rest of `out` stays as it was.
pub fn autocorrelate_mut(signal: &[Real], n_lags: usize, out: &mut [Real])
    requires
        old(out)@.len() >= n_lags,
    ensures
        final(out)@.len() == old(out)@.len(),
        forall|lag: int|
            0 <= lag < n_lags ==> #[trigger] final(out)@[lag]@ == autocorrelation(
                values(signal@),
                lag,
            ),
        forall|j: int| n_lags <= j < old(out)@.len() ==> #[trigger] final(out)@[j] == old(out)@[j],
{
    let ghost start = out@;
    let len = signal.len();
    let mut lag: usize = 0;
    while lag < n_lags
        invariant
            lag <= n_lags,
            len == signal@.len(),
            out@.len() == start.len(),
            out@.len() >= n_lags,
            forall|t: int|
                0 <= t < lag ==> #[trigger] out@[t]@ == autocorrelation(values(signal@), t),
            forall|j: int| n_lags <= j < out@.len() ==> #[trigger] out@[j] == start[j],
        decreases n_lags - lag,
    {
        let mut total = Real::zero();
        if lag < len {
            let mut i: usize = 0;
            while i < len - lag
                invariant
                    lag < len,
                    i <= len - lag,
                    len == signal@.len(),
                    total@ == lag_sum(values(signal@), lag as int, i as nat),
                decreases len - lag - i,
            {
                total = total.plus(signal[i].times(signal[i + lag]));
                i += 1;
            }
        }
        out[lag] = total;
        lag += 1;
    }
}

/// The autocorrelation of `signal` at the lags `0..n_lags`.
pub fn autocorrelate(signal: &[Real], n_lags: usize) -> (lags: Vec<Real>)
    ensures
        lags@.len() == n_lags,
        forall|lag: int|
            0 <= lag < n_lags ==> #[trigger] lags@[lag]@ == autocorrelation(values(signal@), lag),
{
    let mut lags: Vec<Real> = vec![Real::zero(); n_lags];
    autocorrelate_mut(signal, n_lags, lags.as_mut_slice());
    lags
}

/// Resampling to the same number of samples returns the samples.
pub proof fn lemma_resample_same_length(src: Seq<u64>)
    requires
        src.len() >= 1,
    ensures
        resampled(src, src.len() as int) == src,
{
    let m = src.len() as int;
    assert forall|i: int| 0 <= i < m implies resampled_at(src, m, i) == src[i] by {
        if m > 1 {
            assert((i * (m - 1)) / (m - 1) == i && (i * (m - 1)) % (m - 1) == 0)
                by (nonlinear_arith)
                requires
                    m - 1 > 0,
                    0 <= i,
            ;
        }
    }
    assert(resampled(src, m) =~= src);
}

/// Linear resampling keeps the first and the last sample.
pub proof fn lemma_resampled_endpoints(src: Seq<u64>, m: int)
    requires
        src.len() >= 1,
        m >= 1,
    ensures
        resampled(src, m)[0] == src[0],
        m >= 2 ==> resampled(src, m)[m - 1] == src[src.len() - 1],
{
    if m >= 2 {
        let n = src.len() as int;
        assert(((m - 1) * (n - 1)) / (m - 1) == n - 1 && ((m - 1) * (n - 1)) % (m - 1) == 0)
            by (nonlinear_arith)
            requires
                m - 1 > 0,
                n - 1 >= 0,
        ;
        assert(0 * (n - 1) == 0);
        assert(0int / (m - 1) == 0 && 0int % (m - 1) == 0);
    }
}

/// A ratio of exactly 1 counts as 1.
pub proof fn lemma_one_is_near_unity()
    ensures
        near_unity(ONE_BITS),
{
    assert(key(UNITY_LOW_BITS) < key(ONE_BITS) < key(UNITY_HIGH_BITS));
}

/// Resampling with a ratio of 1 into a buffer as long as the source returns
/// the source.
pub proof fn lemma_resampling_by_one_is_identity(
    src: Seq<Real>,
    before: Seq<Real>,
    after: Seq<Real>,
)
    requires
        before.len() == src.len(),
        resampling(src, ONE_BITS, before, after),
    ensures
        after == src,
{
    lemma_one_is_near_unity();
    assert(after =~= src);
}

/// Resampling into a buffer as long as the source returns the values of the
/// source, whatever the ratio.
pub proof fn lemma_resampling_to_same_length_is_identity(
    src: Seq<Real>,
    ratio: u64,
    before: Seq<Real>,
    after: Seq<Real>,
)
    requires
        before.len() == src.len(),
        resampling(src, ratio, before, after),
    ensures
        values(after) == values(src),
{
    if near_unity(ratio) {
        assert(after =~= src);
    } else if src.len() >= 1 {
        lemma_resample_same_length(values(src));
    } else {
        assert(values(after) =~= values(src));
    }
}

} // verus!
