//! Linear predictive coding: the Levinson-Durbin recursion from
//! autocorrelation lags to predictor and reflection coefficients.
use vstd::prelude::*;
use crate::scalar::{
    canonical, negated, real_difference, real_product, real_quotient, real_sum, values, Real,
    ONE_BITS,
};

verus! {

/// The predictor after some order of the recursion.
pub struct Predictor {
    /// The coefficients `a[0..=order]`.
    pub a: Seq<u64>,
    /// The residual error.
    pub err: u64,
}

/// `r[i] + a[1] r[i - 1] + ... + a[j - 1] r[i - j + 1]`, summed in this
/// order.
pub open spec fn correlation(r: Seq<u64>, a: Seq<u64>, i: int, j: int) -> u64
    decreases j,
{
    if j <= 1 {
        r[i]
    } else {
        real_sum(correlation(r, a, i, j - 1), real_product(a[j - 1], r[i - (j - 1)]))
    }
}

/// The reflection coefficient of order `i`, given the predictor of order
/// `i - 1`: `-(r[i] + sum of a[j] r[i - j]) / err`.
pub open spec fn reflection_from(r: Seq<u64>, before: Predictor, i: int) -> u64 {
    real_quotient(canonical(negated(correlation(r, before.a, i, i))), before.err)
}

/// The predictor of order `order` for the lags `r`: order 0 is `a = [1]` with
/// error `r[0]`; order `i` appends the reflection coefficient `k`, adds
/// `k a[i - j]` to each `a[j]` in between, and scales the error by `1 - k^2`.
pub open spec fn predictor(r: Seq<u64>, order: nat) -> Predictor
    decreases order,
{
    if order == 0 {
        Predictor { a: seq![ONE_BITS], err: r[0] }
    } else {
        let before = predictor(r, (order - 1) as nat);
        let k = reflection_from(r, before, order as int);
        Predictor {
            a: Seq::new(
                order + 1,
                |j: int|
                    if j == 0 {
                        before.a[0]
                    } else if j == order {
                        k
                    } else {
                        real_sum(before.a[j], real_product(k, before.a[order - j]))
                    },
            ),
            err: real_product(before.err, real_difference(ONE_BITS, real_product(k, k))),
        }
    }
}

/// The reflection coefficient of order `order >= 1`: the last coefficient of
/// the predictor of that order.
pub open spec fn reflection(r: Seq<u64>, order: nat) -> u64 {
    predictor(r, order).a[order as int]
}

/// The predictor of order `order` has `order + 1` coefficients, the first of
/// them 1.
pub proof fn lemma_predictor_shape(r: Seq<u64>, order: nat)
    ensures
        predictor(r, order).a.len() == order + 1,
        predictor(r, order).a[0] == ONE_BITS,
    decreases order,
{
    if order > 0 {
        lemma_predictor_shape(r, (order - 1) as nat);
    }
}

/// Linear predictive coding of a sequence of autocorrelation lags.
pub trait LPC {
    /// The values of the lags.
    spec fn lags(&self) -> Seq<u64>;

    /// Runs the recursion to order `n_coeffs` without allocating: `ac`
    /// receives the predictor coefficients `a[0..=n_coeffs]`, `kc` the
    /// reflection coefficients of the orders `1..=n_coeffs`, and `tmp` is left
    /// holding the predictor of the order before the last. What lies beyond
    /// in the three buffers stays as it was.
    fn lpc_mut(&self, n_coeffs: usize, ac: &mut [Real], kc: &mut [Real], tmp: &mut [Real])
        requires
            self.lags().len() > n_coeffs,
            old(ac)@.len() > n_coeffs,
            old(kc)@.len() >= n_coeffs,
            old(tmp)@.len() >= n_coeffs,
        ensures
            final(ac)@.len() == old(ac)@.len(),
            final(kc)@.len() == old(kc)@.len(),
            final(tmp)@.len() == old(tmp)@.len(),
            final(ac)@[0].bits == ONE_BITS,
            forall|j: int|
                0 <= j <= n_coeffs ==> #[trigger] final(ac)@[j]@ == predictor(
                    self.lags(),
                    n_coeffs as nat,
                ).a[j],
            forall|j: int|
                n_coeffs < j < old(ac)@.len() ==> #[trigger] final(ac)@[j] == old(ac)@[j],
            forall|j: int|
                0 <= j < n_coeffs ==> #[trigger] final(kc)@[j]@ == reflection(
                    self.lags(),
                    (j + 1) as nat,
                ),
            forall|j: int|
                n_coeffs <= j < old(kc)@.len() ==> #[trigger] final(kc)@[j] == old(kc)@[j],
            forall|j: int|
                0 <= j < n_coeffs ==> #[trigger] final(tmp)@[j]@ == predictor(
                    self.lags(),
                    (n_coeffs - 1) as nat,
                ).a[j],
            forall|j: int|
                n_coeffs <= j < old(tmp)@.len() ==> #[trigger] final(tmp)@[j] == old(tmp)@[j],
    ;

    /// The predictor coefficients `a[0..=n_coeffs]`.
    fn lpc(&self, n_coeffs: usize) -> (ac: Vec<Real>)
        requires
            self.lags().len() > n_coeffs,
        ensures
            values(ac@) == predictor(self.lags(), n_coeffs as nat).a,
            ac@[0].bits == ONE_BITS,
    ;
}

impl LPC for [Real] {
    open spec fn lags(&self) -> Seq<u64> {
        values(self@)
    }

    fn lpc_mut(&self, n_coeffs: usize, ac: &mut [Real], kc: &mut [Real], tmp: &mut [Real]) {
        let ghost r = values(self@);
        let ghost ac_start = ac@;
        let ghost kc_start = kc@;
        let ghost tmp_start = tmp@;
        let mut err = self[0];
        ac[0] = Real::one();
        let mut i: usize = 1;
        while i <= n_coeffs
            invariant
                1 <= i <= n_coeffs + 1,
                r == values(self@),
                self@.len() > n_coeffs,
                ac@.len() == ac_start.len(),
                kc@.len() == kc_start.len(),
                tmp@.len() == tmp_start.len(),
                ac@.len() > n_coeffs,
                kc@.len() >= n_coeffs,
                tmp@.len() >= n_coeffs,
                ac@[0].bits == ONE_BITS,
                err@ == predictor(r, (i - 1) as nat).err,
                forall|j: int| 0 <= j < i ==> #[trigger] ac@[j]@ == predictor(r, (i - 1) as nat).a[j],
                forall|j: int| i <= j < ac@.len() ==> #[trigger] ac@[j] == ac_start[j],
                forall|j: int| 0 <= j < i - 1 ==> #[trigger] kc@[j]@ == reflection(r, (j + 1) as nat),
                forall|j: int| i - 1 <= j < kc@.len() ==> #[trigger] kc@[j] == kc_start[j],
                i >= 2 ==> forall|j: int|
                    0 <= j < i - 1 ==> #[trigger] tmp@[j]@ == predictor(r, (i - 2) as nat).a[j],
                i >= 2 ==> forall|j: int|
                    n_coeffs <= j < tmp@.len() ==> #[trigger] tmp@[j] == tmp_start[j],
                i == 1 ==> tmp@ == tmp_start,
            decreases n_coeffs + 1 - i,
        {
            let ghost before = predictor(r, (i - 1) as nat);
            let ghost after = predictor(r, i as nat);
            proof {
                lemma_predictor_shape(r, (i - 1) as nat);
                lemma_predictor_shape(r, i as nat);
            }
            let mut acc = self[i];
            let mut j: usize = 1;
            while j < i
                invariant
                    1 <= j <= i <= n_coeffs,
                    r == values(self@),
                    self@.len() > n_coeffs,
                    ac@.len() > n_coeffs,
                    before.a.len() == i,
                    forall|t: int| 0 <= t < i ==> #[trigger] ac@[t]@ == before.a[t],
                    acc@ == correlation(r, before.a, i as int, j as int),
                decreases i - j,
            {
                acc = acc.plus(ac[j].times(self[i - j]));
                j += 1;
            }
            let k = acc.neg().over(err);
            assert(k@ == reflection_from(r, before, i as int));
            kc[i - 1] = k;
            ac[i] = k;
            let mut j: usize = 0;
            while j < n_coeffs
                invariant
                    j <= n_coeffs,
                    ac@.len() > n_coeffs,
                    tmp@.len() == tmp_start.len(),
                    tmp@.len() >= n_coeffs,
                    forall|t: int| 0 <= t < j ==> #[trigger] tmp@[t] == ac@[t],
                    forall|t: int| n_coeffs <= t < tmp@.len() ==> #[trigger] tmp@[t] == tmp_start[t],
                decreases n_coeffs - j,
            {
                tmp[j] = ac[j];
                j += 1;
            }
            let mut j: usize = 1;
            while j < i
                invariant
                    1 <= j <= i <= n_coeffs,
                    ac@.len() == ac_start.len(),
                    ac@.len() > n_coeffs,
                    tmp@.len() >= n_coeffs,
                    before.a.len() == i,
                    after == predictor(r, i as nat),
                    before == predictor(r, (i - 1) as nat),
                    k@ == reflection_from(r, before, i as int),
                    ac@[0].bits == ONE_BITS,
                    ac@[0]@ == before.a[0],
                    ac@[i as int] == k,
                    forall|t: int| 0 <= t < i ==> #[trigger] tmp@[t]@ == before.a[t],
                    forall|t: int| 1 <= t < j ==> #[trigger] ac@[t]@ == after.a[t],
                    forall|t: int| j <= t < i ==> #[trigger] ac@[t]@ == before.a[t],
                    forall|t: int| i < t < ac@.len() ==> #[trigger] ac@[t] == ac_start[t],
                decreases i - j,
            {
                ac[j] = ac[j].plus(k.times(tmp[i - j]));
                j += 1;
            }
            err = err.times(Real::one().minus(k.times(k)));
            i += 1;
        }
    }

    fn lpc(&self, n_coeffs: usize) -> (ac: Vec<Real>) {
        let len = self.len();
        assert(n_coeffs < len);
        let mut ac: Vec<Real> = vec![Real::zero(); n_coeffs + 1];
        let mut kc: Vec<Real> = vec![Real::zero(); n_coeffs];
        let mut tmp: Vec<Real> = vec![Real::zero(); n_coeffs];
        self.lpc_mut(n_coeffs, ac.as_mut_slice(), kc.as_mut_slice(), tmp.as_mut_slice());
        proof {
            lemma_predictor_shape(values(self@), n_coeffs as nat);
            assert(values(ac@) =~= predictor(values(self@), n_coeffs as nat).a);
        }
        ac
    }
}

} // verus!
