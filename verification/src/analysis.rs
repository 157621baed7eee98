//! The analysis of one frame, from samples to formants: resample, window,
//! autocorrelate, predict, find the predictor's roots, turn them into
//! resonances and assign those to the formant slots.
use vstd::prelude::*;
use crate::complex::{complex_is_zero, complex_values, Complex, ComplexValue};
use crate::error::{PolynomialFault, VoxBoxError, VoxBoxResult};
use crate::formant::{
    ascending, carried, in_order, lemma_sorted_positive, positive, sort_ascending, track,
};
use crate::lpc::{lemma_predictor_shape, predictor, LPC};
use crate::polynomial::{
    deflation_fails, lemma_degree_is, lemma_low_offset, roots_stored, Polynomial,
};
use crate::resonance::{
    by_frequency, resonance_among, resonance_values, resonances_at, ResonanceValue, ToResonance,
};
use crate::scalar::{is_finite, is_nan, less, real_product, values, Real, ONE_BITS};
use crate::signal::{
    autocorrelate_mut, autocorrelation, hanning, hanning_weighted, resample_linear, resampling,
};

verus! {

/// The most resonances of a frame that are handed to the formant slots.
pub const MAX_RESONANCES: usize = 32;

/// The patterns of 320, 1440, 2760 and 3200 Hz: where an adult male voice
/// has its first four formants.
pub const MALE_FORMANT_ESTIMATES: [u64; 4] = [
    0x4074_0000_0000_0000,
    0x4096_8000_0000_0000,
    0x40a5_9000_0000_0000,
    0x40a9_0000_0000_0000,
];

/// The patterns of 480, 1760, 3200 and 3520 Hz: where an adult female voice
/// has its first four formants.
pub const FEMALE_FORMANT_ESTIMATES: [u64; 4] = [
    0x407e_0000_0000_0000,
    0x409b_8000_0000_0000,
    0x40a9_0000_0000_0000,
    0x40ab_8000_0000_0000,
];

/// The real scratch that the analysis of a frame asks for: `2 buf_len + 23
/// n_coeffs + 2`.
pub open spec fn real_work_size(buf_len: int, n_coeffs: int) -> int {
    2 * buf_len + 23 * n_coeffs + 2
}

/// The complex scratch that the analysis of a frame asks for: `7 n_coeffs +
/// 4`.
pub open spec fn complex_work_size(n_coeffs: int) -> int {
    7 * n_coeffs + 4
}

/// The real scratch to supply for a resampled frame of `buf_len` samples and
/// a predictor of order `n_coeffs`.
pub fn find_formants_real_work_size(buf_len: usize, n_coeffs: usize) -> (size: usize)
    requires
        real_work_size(buf_len as int, n_coeffs as int) <= usize::MAX,
    ensures
        size == real_work_size(buf_len as int, n_coeffs as int),
{
    2 * buf_len + 23 * n_coeffs + 2
}

/// The complex scratch to supply for a predictor of order `n_coeffs`.
pub fn find_formants_complex_work_size(n_coeffs: usize) -> (size: usize)
    requires
        complex_work_size(n_coeffs as int) <= usize::MAX,
    ensures
        size == complex_work_size(n_coeffs as int),
{
    7 * n_coeffs + 4
}

/// One of the two tables of starting estimates as numbers.
pub fn formant_estimates(table: &[u64; 4]) -> (estimates: Vec<Real>)
    ensures
        estimates@.len() == 4,
        forall|i: int| 0 <= i < 4 ==> #[trigger] estimates@[i].bits == table@[i],
{
    let mut estimates: Vec<Real> = Vec::new();
    let mut i: usize = 0;
    while i < 4
        invariant
            i <= 4,
            estimates@.len() == i,
            forall|k: int| 0 <= k < i ==> #[trigger] estimates@[k].bits == table@[k],
        decreases 4 - i,
    {
        estimates.push(Real::from_bits(table[i]));
        i += 1;
    }
    estimates
}

/// Whether a scratch buffer is too small for the analysis.
pub open spec fn workspace_short(
    resampled_len: int,
    n_coeffs: int,
    real_work_len: int,
    complex_work_len: int,
) -> bool {
    real_work_len < real_work_size(resampled_len, n_coeffs) || complex_work_len
        < complex_work_size(n_coeffs)
}

/// Whether both scratch buffers are large enough for the analysis.
pub fn workspace_suffices(
    resampled_len: usize,
    n_coeffs: usize,
    real_work_len: usize,
    complex_work_len: usize,
) -> (enough: bool)
    ensures
        enough == !workspace_short(
            resampled_len as int,
            n_coeffs as int,
            real_work_len as int,
            complex_work_len as int,
        ),
{
    let real_need: u128 = 2 * (resampled_len as u128) + 23 * (n_coeffs as u128) + 2;
    let complex_need: u128 = 7 * (n_coeffs as u128) + 4;
    (real_work_len as u128) >= real_need && (complex_work_len as u128) >= complex_need
}

/// The predictor polynomial of the coefficients `a[0..=n]`: `a` reversed, so
/// that the leading coefficient is `a[0]`.
pub open spec fn predictor_polynomial_of(a: Seq<u64>) -> Seq<ComplexValue> {
    Seq::new(a.len(), |j: int| ComplexValue { re: a[a.len() - 1 - j], im: 0 })
}

/// Writes the predictor polynomial of `a` to `out`.
pub fn predictor_polynomial(a: &[Real], out: &mut [Complex])
    requires
        old(out)@.len() == a@.len(),
    ensures
        final(out)@.len() == a@.len(),
        complex_values(final(out)@) == predictor_polynomial_of(values(a@)),
        forall|j: int|
            0 <= j < a@.len() ==> #[trigger] final(out)@[j].re == a@[a@.len() - 1 - j]
                && final(out)@[j].im.bits == 0,
{
    let n = a.len();
    let mut j: usize = 0;
    while j < n
        invariant
            j <= n,
            n == a@.len(),
            out@.len() == n,
            forall|t: int|
                0 <= t < j ==> #[trigger] out@[t].re == a@[n - 1 - t] && out@[t].im.bits == 0,
        decreases n - j,
    {
        out[j] = Complex::from_real(a[n - 1 - j]);
        j += 1;
    }
    assert(complex_values(out@) =~= predictor_polynomial_of(values(a@)));
}

/// Whether `after` is `before` with the formants that `peaks` leaves in its
/// slots written, in ascending order, over its front.
pub open spec fn formants_updated(before: Seq<Real>, peaks: Seq<Real>, after: Seq<Real>) -> bool {
    let count = carried(before, peaks).len() as int;
    &&& after.len() == before.len()
    &&& count <= before.len()
    &&& after.take(count) == in_order(carried(before, peaks))
    &&& after.take(count).to_multiset() == carried(before, peaks).to_multiset()
    &&& ascending(after.take(count))
    &&& positive(after.take(count))
    &&& forall|i: int| count <= i < before.len() ==> #[trigger] after[i] == before[i]
}

/// Assigns the peaks of a frame to the formant slots. The slots hold
/// the current estimates; the formants found are written over their front in
/// ascending order, and the slots after them stay as they were.
pub fn update_formants(formants: &mut [Real], peaks: &Vec<Real>)
    ensures
        formants_updated(old(formants)@, peaks@, final(formants)@),
{
    let ghost before = formants@;
    let mut estimates: Vec<Real> = Vec::new();
    let mut i: usize = 0;
    while i < formants.len()
        invariant
            i <= formants@.len(),
            formants@ == before,
            estimates@ == before.take(i as int),
        decreases formants@.len() - i,
    {
        estimates.push(formants[i]);
        assert(before.take(i + 1) == before.take(i as int).push(before[i as int]));
        i += 1;
    }
    assert(before.take(before.len() as int) == before);
    let winners = track(&estimates, peaks);
    let sorted = sort_ascending(&winners);
    proof {
        assert forall|k: int| 0 <= k < winners@.len() implies !is_nan(
            #[trigger] winners@[k]@,
        ) by {
            assert(less(0, winners@[k]@));
        }
        lemma_sorted_positive(winners@, sorted@);
    }
    let count = sorted.len();
    let mut i: usize = 0;
    while i < count
        invariant
            i <= count,
            count == sorted@.len(),
            count <= before.len(),
            formants@.len() == before.len(),
            forall|k: int| 0 <= k < i ==> #[trigger] formants@[k] == sorted@[k],
            forall|k: int| i <= k < before.len() ==> #[trigger] formants@[k] == before[k],
        decreases count - i,
    {
        formants[i] = sorted[i];
        i += 1;
    }
    assert(formants@.take(count as int) =~= sorted@);
}

/// The autocorrelation of `samples` at the lags `0..=n_coeffs`.
pub open spec fn frame_lags(samples: Seq<u64>, n_coeffs: nat) -> Seq<u64> {
    Seq::new(n_coeffs + 1, |lag: int| autocorrelation(samples, lag))
}

/// The predictor coefficients `a[0..=n_coeffs]` of `samples`.
pub open spec fn frame_predictor(samples: Seq<u64>, n_coeffs: nat) -> Seq<u64> {
    predictor(frame_lags(samples, n_coeffs), n_coeffs).a
}

/// Whether some coefficient is an infinity or a NaN.
pub open spec fn unbounded(a: Seq<u64>) -> bool {
    exists|j: int| 0 <= j < a.len() && !is_finite(#[trigger] a[j])
}

/// Whether `peaks` are the frequencies of the first resonances of `sorted`,
/// as many as there are up to `MAX_RESONANCES`.
pub open spec fn lowest_frequencies(sorted: Seq<ResonanceValue>, peaks: Seq<Real>) -> bool {
    &&& peaks.len() == if sorted.len() < MAX_RESONANCES {
        sorted.len()
    } else {
        MAX_RESONANCES as nat
    }
    &&& forall|k: int| 0 <= k < peaks.len() ==> #[trigger] peaks[k]@ == sorted[k].frequency
}

/// Whether the analysis of a frame with the predictor `a` at the rate `rate`
/// turns the formants `before` into `after`, by way of `roots`, their
/// arguments `angles` and the peaks `peaks`: the roots are those found for
/// the predictor polynomial; the peaks are the lowest frequencies among the
/// resonances of the roots at those arguments, ascending and above 1 Hz; and
/// the formants are updated with the peaks.
pub open spec fn formants_found(
    a: Seq<u64>,
    rate: u64,
    before: Seq<Real>,
    after: Seq<Real>,
    roots: Seq<ComplexValue>,
    angles: Seq<u64>,
    peaks: Seq<Real>,
) -> bool {
    &&& roots_stored(predictor_polynomial_of(a), roots)
    &&& angles.len() == roots.len()
    &&& lowest_frequencies(by_frequency(resonances_at(roots, angles, rate)), peaks)
    &&& ascending(peaks)
    &&& forall|k: int| 0 <= k < peaks.len() ==> less(ONE_BITS, #[trigger] peaks[k]@)
    &&& formants_updated(before, peaks, after)
}

/// Analyses one frame. The frame is resampled into `resampled_buf` and
/// windowed there; its autocorrelation gives a predictor of order `n_coeffs`,
/// whose roots give resonances at the rate `sample_rate * resample_ratio`;
/// the lowest `MAX_RESONANCES` of them are assigned to the slots of
/// `formants`, which holds the current estimates and receives the formants.
///
/// Fails with `Workspace` where a scratch buffer is too small, with `Numeric`
/// where a predictor coefficient is not finite, with `ZeroDegree` for a
/// predictor of order zero, and with `FailedDeflation` where root finding
/// does; `formants` is then left as it was.
#[verifier::loop_isolation(false)]
pub fn find_formants(
    frame: &[Real],
    sample_rate: Real,
    resample_ratio: Real,
    resampled_buf: &mut [Real],
    n_coeffs: usize,
    real_work: &mut [Real],
    complex_work: &mut [Complex],
    formants: &mut [Real],
) -> (result: VoxBoxResult<()>)
    requires
        old(resampled_buf)@.len() >= 1 ==> frame@.len() >= 1,
    ensures
        final(resampled_buf)@.len() == old(resampled_buf)@.len(),
        final(real_work)@.len() == old(real_work)@.len(),
        final(complex_work)@.len() == old(complex_work)@.len(),
        final(formants)@.len() == old(formants)@.len(),
        result == Err::<(), VoxBoxError>(VoxBoxError::Workspace) <==> workspace_short(
            old(resampled_buf)@.len() as int,
            n_coeffs as int,
            old(real_work)@.len() as int,
            old(complex_work)@.len() as int,
        ),
        result == Err::<(), VoxBoxError>(VoxBoxError::Workspace) ==> final(resampled_buf)@ == old(
            resampled_buf,
        )@ && final(real_work)@ == old(real_work)@ && final(complex_work)@ == old(
            complex_work,
        )@,
        result != Err::<(), VoxBoxError>(VoxBoxError::Workspace) ==> exists|resampled: Seq<Real>|
            #[trigger] resampling(frame@, resample_ratio@, old(resampled_buf)@, resampled)
                && forall|i: int|
                0 <= i < resampled.len() ==> hanning_weighted(
                    resampled[i]@,
                    #[trigger] final(resampled_buf)@[i]@,
                ),
        result == Err::<(), VoxBoxError>(VoxBoxError::Numeric) <==> !workspace_short(
            old(resampled_buf)@.len() as int,
            n_coeffs as int,
            old(real_work)@.len() as int,
            old(complex_work)@.len() as int,
        ) && unbounded(frame_predictor(values(final(resampled_buf)@), n_coeffs as nat)),
        result == Err::<(), VoxBoxError>(VoxBoxError::Polynomial(PolynomialFault::ZeroDegree))
            <==> !workspace_short(
            old(resampled_buf)@.len() as int,
            n_coeffs as int,
            old(real_work)@.len() as int,
            old(complex_work)@.len() as int,
        ) && n_coeffs == 0,
        result == Err::<(), VoxBoxError>(VoxBoxError::Polynomial(PolynomialFault::FailedDeflation))
            ==> n_coeffs >= 3 && deflation_fails(
            predictor_polynomial_of(
                frame_predictor(values(final(resampled_buf)@), n_coeffs as nat),
            ),
        ),
        result != Err::<(), VoxBoxError>(VoxBoxError::Polynomial(PolynomialFault::DivideByZero)),
        result is Err ==> final(formants)@ == old(formants)@,
        result is Ok ==> exists|roots: Seq<ComplexValue>, angles: Seq<u64>, peaks: Seq<Real>|
            #[trigger] formants_found(
                frame_predictor(values(final(resampled_buf)@), n_coeffs as nat),
                real_product(sample_rate@, resample_ratio@),
                old(formants)@,
                final(formants)@,
                roots,
                angles,
                peaks,
            ),
{
    let resampled_len = resampled_buf.len();
    if !workspace_suffices(resampled_len, n_coeffs, real_work.len(), complex_work.len()) {
        return Err(VoxBoxError::Workspace);
    }
    resample_linear(frame, resample_ratio, resampled_buf);
    hanning(resampled_buf);

    let (lags, rest) = real_work.split_at_mut(n_coeffs + 1);
    let (ac, rest) = rest.split_at_mut(n_coeffs + 1);
    let (kc, rest) = rest.split_at_mut(n_coeffs);
    let (tmp, _) = rest.split_at_mut(n_coeffs);
    autocorrelate_mut(resampled_buf, n_coeffs + 1, lags);
    lags.lpc_mut(n_coeffs, ac, kc, tmp);
    let ghost a = frame_predictor(values(resampled_buf@), n_coeffs as nat);
    proof {
        assert(values(lags@) =~= frame_lags(values(resampled_buf@), n_coeffs as nat));
        lemma_predictor_shape(values(lags@), n_coeffs as nat);
        assert(values(ac@) =~= a);
    }
    let mut j: usize = 0;
    while j <= n_coeffs
        invariant
            j <= n_coeffs + 1,
            ac@.len() == n_coeffs + 1,
            forall|t: int| 0 <= t < j ==> is_finite(#[trigger] ac@[t]@),
        decreases n_coeffs + 1 - j,
    {
        if !ac[j].is_finite() {
            proof {
                assert(!is_finite(a[j as int]));
            }
            return Err(VoxBoxError::Numeric);
        }
        j += 1;
    }
    proof {
        assert(!unbounded(a)) by {
            if unbounded(a) {
                let t = choose|t: int| 0 <= t < a.len() && !is_finite(#[trigger] a[t]);
                assert(is_finite(ac@[t]@));
            }
        }
    }

    let (poly, scratch) = complex_work.split_at_mut(n_coeffs + 1);
    predictor_polynomial(ac, poly);
    proof {
        let c = complex_values(poly@);
        assert(!complex_is_zero(c[n_coeffs as int])) by {
            assert(poly@[n_coeffs as int].re == ac@[0]);
        }
        lemma_degree_is(c, n_coeffs as int);
        lemma_low_offset(c);
    }
    match poly.find_roots_mut(scratch) {
        Err(e) => {
            return Err(e);
        },
        Ok(()) => {},
    }
    let ghost roots = complex_values(poly@);
    let rate = sample_rate.times(resample_ratio);
    let resonances = poly.to_resonance(rate);
    let ghost angles = choose|angles: Seq<u64>|
        angles.len() == roots.len() && resonance_values(resonances@) == by_frequency(
            #[trigger] resonances_at(roots, angles, rate@),
        );
    let mut peaks: Vec<Real> = Vec::new();
    let mut i: usize = 0;
    while i < resonances.len() && i < MAX_RESONANCES
        invariant
            i <= resonances@.len(),
            i <= MAX_RESONANCES,
            peaks@.len() == i,
            forall|k: int| 0 <= k < i ==> #[trigger] peaks@[k] == resonances@[k].frequency,
        decreases resonances@.len() - i,
    {
        peaks.push(resonances[i].frequency);
        i += 1;
    }
    proof {
        assert forall|k: int| 0 <= k < peaks@.len() implies less(
            ONE_BITS,
            #[trigger] peaks@[k]@,
        ) by {
            assert(resonance_among(complex_values(poly@), rate@, resonances@[k]));
            assert(less(ONE_BITS, resonances@[k].frequency@));
        }
        assert forall|k: int| 0 <= k < peaks@.len() implies #[trigger] peaks@[k]@
            == resonance_values(resonances@)[k].frequency by {
            assert(peaks@[k] == resonances@[k].frequency);
        }
    }
    let ghost before = formants@;
    update_formants(formants, &peaks);
    proof {
        assert(formants_found(a, rate@, before, formants@, roots, angles, peaks@));
    }
    Ok(())
}

} // verus!
