//! Resonances: the frequency and amplitude that a root of the predictor
//! polynomial stands for, and the level of a frame.
use vstd::prelude::*;
use vstd::seq_lib::{to_multiset_build, to_multiset_insert, to_multiset_len};
use crate::complex::{Complex, ComplexValue};
use crate::complex::complex_values;
use crate::scalar::{
    is_nan, less, real_of_count, real_product, real_quotient, real_root, real_sum, same, values,
    Real, ONE_BITS, TWO_PI_BITS,
};

verus! {

/// The value of a resonance: the values of its two fields.
pub struct ResonanceValue {
    pub frequency: u64,
    pub amplitude: u64,
}

/// A resonant frequency, in Hz, with its amplitude.
#[derive(Clone, Copy, Debug, PartialEq, Eq, Structural)]
pub struct Resonance {
    pub frequency: Real,
    pub amplitude: Real,
}

impl View for Resonance {
    type V = ResonanceValue;

    open spec fn view(&self) -> ResonanceValue {
        ResonanceValue { frequency: self.frequency@, amplitude: self.amplitude@ }
    }
}

/// The modulus of a root: the square root of `im^2 + re^2`.
pub open spec fn amplitude_of(root: ComplexValue) -> u64 {
    real_root(real_sum(real_product(root.im, root.im), real_product(root.re, root.re)))
}

/// The frequency at `angle` radians per sample: `angle (sample_rate / 2 pi)`.
pub open spec fn frequency_at(angle: u64, sample_rate: u64) -> u64 {
    real_product(angle, real_quotient(sample_rate, TWO_PI_BITS))
}

/// Whether a root at `angle` gives a resonance: its imaginary part is not
/// negative and its frequency lies above 1 Hz.
pub open spec fn resonates(root: ComplexValue, angle: u64, sample_rate: u64) -> bool {
    (less(0, root.im) || same(root.im, 0)) && less(ONE_BITS, frequency_at(angle, sample_rate))
}

/// The resonance of a root at `angle`.
pub open spec fn resonance_at(root: ComplexValue, angle: u64, sample_rate: u64) -> ResonanceValue {
    ResonanceValue { frequency: frequency_at(angle, sample_rate), amplitude: amplitude_of(root) }
}

/// Whether `res` is the resonance of `root` at some angle.
pub open spec fn resonance_of(root: ComplexValue, sample_rate: u64, res: ResonanceValue) -> bool {
    exists|angle: u64| #[trigger]
        resonates(root, angle, sample_rate) && res == resonance_at(root, angle, sample_rate)
}

/// What a root whose argument is `angle` gives: its resonance where it
/// resonates, nothing where it does not.
pub open spec fn resonance_from(root: ComplexValue, angle: u64, sample_rate: u64) -> Option<
    ResonanceValue,
> {
    if resonates(root, angle, sample_rate) {
        Some(resonance_at(root, angle, sample_rate))
    } else {
        None
    }
}

/// The value of a resonance that may be missing.
pub open spec fn optional_value(res: Option<Resonance>) -> Option<ResonanceValue> {
    match res {
        Some(r) => Some(r@),
        None => None,
    }
}

/// The values of a sequence of resonances.
pub open spec fn resonance_values(s: Seq<Resonance>) -> Seq<ResonanceValue> {
    Seq::new(s.len(), |i: int| s[i]@)
}

/// The resonances of `roots`, in the order of the roots, where root `i` has
/// the argument `angles[i]`: the roots that do not resonate are left out.
pub open spec fn resonances_at(roots: Seq<ComplexValue>, angles: Seq<u64>, sample_rate: u64) -> Seq<
    ResonanceValue,
>
    decreases roots.len(),
{
    if roots.len() == 0 {
        Seq::empty()
    } else {
        let before = resonances_at(roots.drop_last(), angles.drop_last(), sample_rate);
        match resonance_from(roots.last(), angles.last(), sample_rate) {
            Some(r) => before.push(r),
            None => before,
        }
    }
}

/// Where a resonance of frequency `frequency` goes into `s`, looking from
/// index `from`: before the first resonance of a strictly greater frequency,
/// at the end where there is none.
pub open spec fn insertion_point(s: Seq<ResonanceValue>, frequency: u64, from: int) -> int
    decreases s.len() - from,
{
    if from < 0 || from >= s.len() {
        s.len() as int
    } else if less(frequency, s[from].frequency) {
        from
    } else {
        insertion_point(s, frequency, from + 1)
    }
}

/// The resonances of `s` in ascending order of frequency: each in turn goes
/// into those before it at its insertion point, so that resonances whose
/// frequencies compare equal keep the order they came in.
pub open spec fn by_frequency(s: Seq<ResonanceValue>) -> Seq<ResonanceValue>
    decreases s.len(),
{
    if s.len() == 0 {
        Seq::empty()
    } else {
        let before = by_frequency(s.drop_last());
        before.insert(insertion_point(before, s.last().frequency, 0), s.last())
    }
}

/// No resonance has a smaller frequency than one before it.
pub open spec fn ascending_frequencies(s: Seq<Resonance>) -> bool {
    forall|i: int, j: int|
        0 <= i < j < s.len() ==> !less(#[trigger] s[j].frequency@, #[trigger] s[i].frequency@)
}

impl Resonance {
    /// The resonance of `root`, whose argument is `angle`, at `sample_rate`
    /// samples per second; `None` for a root below the real axis or a
    /// frequency of at most 1 Hz.
    pub fn from_angle(angle: Real, root: &Complex, sample_rate: Real) -> (res: Option<Resonance>)
        ensures
            res is Some <==> resonates(root@, angle@, sample_rate@),
            res matches Some(r) ==> r@ == resonance_at(root@, angle@, sample_rate@),
    {
        let freq_mul = sample_rate.over(Real::from_bits(TWO_PI_BITS));
        if root.im.ge(Real::zero()) {
            let res = Resonance {
                frequency: angle.times(freq_mul),
                amplitude: root.im.times(root.im).plus(root.re.times(root.re)).sqrt(),
            };
            if res.frequency.gt(Real::one()) {
                Some(res)
            } else {
                None
            }
        } else {
            None
        }
    }

    /// The resonance of `root` at `sample_rate` samples per second; `None`
    /// for a root below the real axis or a frequency of at most 1 Hz. The
    /// result is that of `from_angle` for the argument found for the root;
    /// the argument's rounding is not fixed.
    pub fn from_root(root: &Complex, sample_rate: Real) -> (res: Option<Resonance>)
        ensures
            exists|angle: u64|
                optional_value(res) == #[trigger] resonance_from(root@, angle, sample_rate@),
            res matches Some(r) ==> resonance_of(root@, sample_rate@, r@) && less(
                ONE_BITS,
                r.frequency@,
            ),
            !(less(0, root@.im) || same(root@.im, 0)) ==> res is None,
    {
        let angle = root.im.atan2(root.re);
        let res = Resonance::from_angle(angle, root, sample_rate);
        proof {
            assert(optional_value(res) == resonance_from(root@, angle@, sample_rate@));
            if res is Some {
                assert(resonates(root@, angle@, sample_rate@));
            }
        }
        res
    }
}

/// The resonances in ascending order of frequency; resonances whose
/// frequencies compare equal keep the order they came in.
pub fn sort_by_frequency(v: &Vec<Resonance>) -> (sorted: Vec<Resonance>)
    ensures
        resonance_values(sorted@) == by_frequency(resonance_values(v@)),
        sorted@.to_multiset() == v@.to_multiset(),
        sorted@.len() == v@.len(),
        (forall|i: int| 0 <= i < v@.len() ==> !is_nan(#[trigger] v@[i].frequency@))
            ==> ascending_frequencies(sorted@),
{
    broadcast use {to_multiset_build, to_multiset_insert, to_multiset_len};

    let mut sorted: Vec<Resonance> = Vec::new();
    let mut i: usize = 0;
    assert(v@.take(0) =~= sorted@);
    assert(resonance_values(sorted@) =~= by_frequency(resonance_values(v@.take(0))));
    while i < v.len()
        invariant
            i <= v@.len(),
            sorted@.len() == i,
            resonance_values(sorted@) == by_frequency(resonance_values(v@.take(i as int))),
            sorted@.to_multiset() == v@.take(i as int).to_multiset(),
            (forall|k: int| 0 <= k < i ==> !is_nan(#[trigger] v@[k].frequency@))
                ==> ascending_frequencies(sorted@) && (forall|k: int|
                0 <= k < sorted@.len() ==> !is_nan(#[trigger] sorted@[k].frequency@)),
        decreases v@.len() - i,
    {
        let x = v[i];
        let mut p: usize = 0;
        while p < sorted.len() && !x.frequency.lt(sorted[p].frequency)
            invariant
                p <= sorted@.len(),
                forall|k: int| 0 <= k < p ==> !less(x.frequency@, #[trigger] sorted@[k].frequency@),
                insertion_point(resonance_values(sorted@), x.frequency@, 0) == insertion_point(
                    resonance_values(sorted@),
                    x.frequency@,
                    p as int,
                ),
            decreases sorted@.len() - p,
        {
            p += 1;
        }
        let ghost before = sorted@;
        sorted.insert(p, x);
        proof {
            let taken = resonance_values(v@.take(i + 1));
            assert(taken.drop_last() =~= resonance_values(v@.take(i as int)));
            assert(taken.last() == x@);
            assert(insertion_point(resonance_values(before), x.frequency@, 0) == p);
            assert(resonance_values(sorted@) =~= resonance_values(before).insert(p as int, x@));
            assert(v@.take(i + 1) == v@.take(i as int).push(x));
            to_multiset_build(v@.take(i as int), x);
            to_multiset_insert(before, p as int, x);
            assert(sorted@ == before.insert(p as int, x));
            if forall|k: int| 0 <= k < i + 1 ==> !is_nan(#[trigger] v@[k].frequency@) {
                let after = sorted@;
                assert(!is_nan(v@[i as int].frequency@));
                assert forall|a: int, b: int| 0 <= a < b < after.len() implies !less(
                    #[trigger] after[b].frequency@,
                    #[trigger] after[a].frequency@,
                ) by {
                    if b == p {
                        assert(after[a] == before[a]);
                    } else if a == p {
                        assert(after[b] == before[b - 1]);
                        assert(less(x.frequency@, before[p as int].frequency@));
                        assert(!less(before[b - 1].frequency@, before[p as int].frequency@));
                    } else {
                        let a0 = if a < p { a } else { a - 1 };
                        let b0 = if b < p { b } else { b - 1 };
                        assert(after[a] == before[a0]);
                        assert(after[b] == before[b0]);
                    }
                }
                assert forall|k: int| 0 <= k < after.len() implies !is_nan(
                    #[trigger] after[k].frequency@,
                ) by {
                    if k < p {
                        assert(after[k] == before[k]);
                    } else if k > p {
                        assert(after[k] == before[k - 1]);
                    }
                }
            }
        }
        i += 1;
    }
    assert(v@.take(v@.len() as int) == v@);
    sorted
}

/// Whether `res` is the resonance of one of `roots`.
pub open spec fn resonance_among(roots: Seq<ComplexValue>, sample_rate: u64, res: Resonance) -> bool {
    exists|i: int| 0 <= i < roots.len() && #[trigger] resonance_of(roots[i], sample_rate, res@)
}

/// Resonances of a list of roots.
pub trait ToResonance {
    /// The values of the roots.
    spec fn roots(&self) -> Seq<ComplexValue>;

    /// The resonances of the roots on or above the real axis whose frequency
    /// lies above 1 Hz, in ascending order of frequency: with each root at
    /// the argument found for it, the resonances of those that resonate,
    /// sorted by frequency with equal frequencies in the order of their roots.
    /// The arguments' rounding is not fixed; `Resonance::from_angle` states
    /// the resonance for a given one.
    fn to_resonance(&self, sample_rate: Real) -> (res: Vec<Resonance>)
        ensures
            exists|angles: Seq<u64>|
                angles.len() == self.roots().len() && resonance_values(res@) == by_frequency(
                    #[trigger] resonances_at(self.roots(), angles, sample_rate@),
                ),
            res@.len() <= self.roots().len(),
            ascending_frequencies(res@),
            forall|k: int|
                0 <= k < res@.len() ==> resonance_among(
                    self.roots(),
                    sample_rate@,
                    #[trigger] res@[k],
                ),
    ;
}

impl ToResonance for [Complex] {
    open spec fn roots(&self) -> Seq<ComplexValue> {
        complex_values(self@)
    }

    fn to_resonance(&self, sample_rate: Real) -> (res: Vec<Resonance>) {
        let ghost roots = complex_values(self@);
        let ghost mut angles: Seq<u64> = Seq::empty();
        let mut found: Vec<Resonance> = Vec::new();
        let mut i: usize = 0;
        assert(resonance_values(found@) =~= resonances_at(roots.take(0), angles, sample_rate@));
        while i < self.len()
            invariant
                i <= self@.len(),
                roots == complex_values(self@),
                found@.len() <= i,
                angles.len() == i,
                resonance_values(found@) == resonances_at(
                    roots.take(i as int),
                    angles,
                    sample_rate@,
                ),
                forall|k: int|
                    0 <= k < found@.len() ==> resonance_among(
                        roots,
                        sample_rate@,
                        #[trigger] found@[k],
                    ),
                forall|k: int|
                    0 <= k < found@.len() ==> less(ONE_BITS, #[trigger] found@[k].frequency@),
            decreases self@.len() - i,
        {
            let outcome = Resonance::from_root(&self[i], sample_rate);
            let ghost angle = choose|angle: u64|
                optional_value(outcome) == #[trigger] resonance_from(
                    roots[i as int],
                    angle,
                    sample_rate@,
                );
            let ghost angles_before = angles;
            let ghost found_before = found@;
            proof {
                angles = angles.push(angle);
                assert(roots.take(i + 1).drop_last() =~= roots.take(i as int));
                assert(roots.take(i + 1).last() == roots[i as int]);
                assert(angles.drop_last() =~= angles_before);
                assert(angles.last() == angle);
            }
            match outcome {
                Some(r) => {
                    assert(resonance_of(roots[i as int], sample_rate@, r@));
                    assert(resonance_among(roots, sample_rate@, r));
                    let ghost before = found@;
                    found.push(r);
                    assert(resonance_values(found@) =~= resonance_values(found_before).push(r@));
                    assert forall|k: int| 0 <= k < found@.len() implies resonance_among(
                        roots,
                        sample_rate@,
                        #[trigger] found@[k],
                    ) && less(ONE_BITS, found@[k].frequency@) by {
                        if k < before.len() {
                            assert(found@[k] == before[k]);
                        }
                    }
                },
                None => {},
            }
            i += 1;
        }
        let sorted = sort_by_frequency(&found);
        proof {
            assert(roots.take(roots.len() as int) =~= roots);
            assert(resonance_values(sorted@) == by_frequency(
                resonances_at(roots, angles, sample_rate@),
            ));
            assert(angles.len() == roots.len());
            assert(roots == self.roots());
            assert(exists|angles: Seq<u64>|
                angles.len() == self.roots().len() && resonance_values(sorted@) == by_frequency(
                    #[trigger] resonances_at(self.roots(), angles, sample_rate@),
                ));
            assert forall|k: int| 0 <= k < sorted@.len() implies resonance_among(
                roots,
                sample_rate@,
                #[trigger] sorted@[k],
            ) by {
                assert(sorted@.to_multiset().count(sorted@[k]) > 0) by {
                    sorted@.to_multiset_ensures();
                }
                found@.to_multiset_ensures();
                assert(found@.contains(sorted@[k]));
                let t = choose|t: int| 0 <= t < found@.len() && found@[t] == sorted@[k];
                assert(resonance_among(roots, sample_rate@, found@[t]));
            }
        }
        sorted
    }
}

/// `x[0]^2 + ... + x[n - 1]^2`, summed in this order from 0.
pub open spec fn sum_of_squares(x: Seq<u64>, n: nat) -> u64
    decreases n,
{
    if n == 0 {
        0
    } else {
        real_sum(sum_of_squares(x, (n - 1) as nat), real_product(x[n - 1], x[n - 1]))
    }
}

/// The root of the mean of the squares.
pub open spec fn rms_of(x: Seq<u64>) -> u64 {
    real_root(real_quotient(sum_of_squares(x, x.len()), real_of_count(x.len() as usize)))
}

/// The level of a frame.
pub trait HasRMS {
    /// The values of the samples.
    spec fn samples(&self) -> Seq<u64>;

    /// The root of the mean of the squared samples.
    fn rms(&self) -> (level: Real)
        ensures
            level@ == rms_of(self.samples()),
    ;
}

impl HasRMS for Vec<Real> {
    open spec fn samples(&self) -> Seq<u64> {
        values(self@)
    }

    fn rms(&self) -> (level: Real) {
        let mut total = Real::zero();
        let mut i: usize = 0;
        while i < self.len()
            invariant
                i <= self@.len(),
                total@ == sum_of_squares(values(self@), i as nat),
            decreases self@.len() - i,
        {
            total = total.plus(self[i].times(self[i]));
            i += 1;
        }
        total.over(Real::from_count(self.len())).sqrt()
    }
}

} // verus!
