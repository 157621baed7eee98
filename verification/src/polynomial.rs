//! Polynomials with complex coefficients, held as a slice indexed by power:
//! degree and low offset, evaluation with two derivatives, Laguerre
//! iteration, division by a linear factor, and root finding by deflation.
use vstd::prelude::*;
use crate::complex::{
    complex_difference, complex_is_zero, complex_negated, complex_product, complex_quotient,
    complex_sum, complex_values, Complex, ComplexValue,
};
use crate::error::{PolynomialFault, VoxBoxError, VoxBoxResult};
use crate::scalar::{
    less, real_of_count, same, Real, FOUR_BITS, MINUS_TWO_BITS, TWO_BITS,
};

verus! {

/// Index of the highest non-zero coefficient, 0 where there is none.
pub open spec fn degree_of(c: Seq<ComplexValue>) -> int
    decreases c.len(),
{
    if c.len() == 0 {
        0
    } else if !complex_is_zero(c.last()) {
        c.len() - 1
    } else {
        degree_of(c.drop_last())
    }
}

/// Index of the first non-zero coefficient at or after `from`, 0 where there
/// is none.
pub open spec fn first_nonzero(c: Seq<ComplexValue>, from: int) -> int
    decreases c.len() - from,
{
    if from < 0 || from >= c.len() {
        0
    } else if !complex_is_zero(c[from]) {
        from
    } else {
        first_nonzero(c, from + 1)
    }
}

/// Index of the lowest non-zero coefficient, 0 where there is none.
pub open spec fn low_offset_of(c: Seq<ComplexValue>) -> int {
    first_nonzero(c, 0)
}

/// Whether every coefficient is zero.
pub open spec fn vanishes(c: Seq<ComplexValue>) -> bool {
    forall|i: int| 0 <= i < c.len() ==> complex_is_zero(#[trigger] c[i])
}

/// The degree is the index of a non-zero coefficient above which all are
/// zero; it is 0 for the zero polynomial.
pub proof fn lemma_degree(c: Seq<ComplexValue>)
    ensures
        vanishes(c) ==> degree_of(c) == 0,
        !vanishes(c) ==> 0 <= degree_of(c) < c.len() && !complex_is_zero(c[degree_of(c)]),
        forall|i: int| degree_of(c) < i < c.len() ==> complex_is_zero(#[trigger] c[i]),
        0 <= degree_of(c),
        degree_of(c) < c.len() || c.len() == 0,
    decreases c.len(),
{
    if c.len() > 0 && complex_is_zero(c.last()) {
        let rest = c.drop_last();
        lemma_degree(rest);
        if vanishes(rest) {
            assert forall|i: int| 0 <= i < c.len() implies complex_is_zero(#[trigger] c[i]) by {
                if i < rest.len() {
                    assert(rest[i] == c[i]);
                }
            }
        } else {
            assert(rest[degree_of(rest)] == c[degree_of(rest)]);
        }
        assert forall|i: int| degree_of(c) < i < c.len() implies complex_is_zero(
            #[trigger] c[i],
        ) by {
            if i < rest.len() {
                assert(rest[i] == c[i]);
            }
        }
    }
}

/// The low offset is the index of a non-zero coefficient below which all are
/// zero; it is 0 for the zero polynomial.
pub proof fn lemma_low_offset(c: Seq<ComplexValue>)
    ensures
        vanishes(c) ==> low_offset_of(c) == 0,
        !vanishes(c) ==> 0 <= low_offset_of(c) < c.len() && !complex_is_zero(c[low_offset_of(c)]),
        forall|i: int| 0 <= i < low_offset_of(c) ==> complex_is_zero(#[trigger] c[i]),
        0 <= low_offset_of(c) <= degree_of(c),
{
    lemma_first_nonzero(c, 0);
    lemma_degree(c);
    if !vanishes(c) {
        let lo = low_offset_of(c);
        let hi = degree_of(c);
        if hi < lo {
            assert(complex_is_zero(c[hi]));
        }
    }
}

proof fn lemma_first_nonzero(c: Seq<ComplexValue>, from: int)
    requires
        0 <= from,
    ensures
        (forall|i: int| from <= i < c.len() ==> complex_is_zero(#[trigger] c[i])) ==> first_nonzero(
            c,
            from,
        ) == 0,
        !(forall|i: int| from <= i < c.len() ==> complex_is_zero(#[trigger] c[i])) ==> from
            <= first_nonzero(c, from) < c.len() && !complex_is_zero(c[first_nonzero(c, from)]),
        forall|i: int| from <= i < first_nonzero(c, from) ==> complex_is_zero(#[trigger] c[i]),
    decreases c.len() - from,
{
    if from < c.len() && complex_is_zero(c[from]) {
        lemma_first_nonzero(c, from + 1);
    }
}

/// A polynomial's value at a point with its first derivative and half its
/// second derivative there.
pub struct Jet {
    pub value: ComplexValue,
    pub first: ComplexValue,
    pub second: ComplexValue,
}

/// Horner's scheme over the coefficients `j..` of `c`, highest first: each
/// step multiplies the three running values by `z` and adds the next lower
/// one, the value taking in the coefficient.
pub open spec fn horner(c: Seq<ComplexValue>, z: ComplexValue, j: int) -> Jet
    decreases c.len() - j,
{
    let zero = ComplexValue { re: 0, im: 0 };
    if j >= c.len() - 1 {
        Jet { value: c[c.len() - 1], first: zero, second: zero }
    } else {
        let up = horner(c, z, j + 1);
        Jet {
            value: complex_sum(complex_product(up.value, z), c[j]),
            first: complex_sum(complex_product(up.first, z), up.value),
            second: complex_sum(complex_product(up.second, z), up.first),
        }
    }
}

/// The polynomial at `z` with its first derivative and half its second.
pub open spec fn evaluated(c: Seq<ComplexValue>, z: ComplexValue) -> Jet {
    horner(c, z, 0)
}

/// The three values of `evaluated`, as numbers.
pub struct Evaluation {
    pub value: Complex,
    pub first: Complex,
    pub second: Complex,
}

impl View for Evaluation {
    type V = Jet;

    open spec fn view(&self) -> Jet {
        Jet { value: self.value@, first: self.first@, second: self.second@ }
    }
}

/// Evaluates the polynomial, its derivative and half its second derivative
/// at `z` in one pass.
pub fn evaluate(coefficients: &[Complex], z: Complex) -> (e: Evaluation)
    requires
        coefficients@.len() >= 1,
    ensures
        e@ == evaluated(complex_values(coefficients@), z@),
{
    let ghost c = complex_values(coefficients@);
    let n = coefficients.len() - 1;
    let mut value = coefficients[n];
    let mut first = Complex::zero();
    let mut second = Complex::zero();
    let mut j = n;
    while j > 0
        invariant
            j <= n,
            n == coefficients@.len() - 1,
            c == complex_values(coefficients@),
            (Evaluation { value, first, second })@ == horner(c, z@, j as int),
        decreases j,
    {
        j -= 1;
        second = second.times(z).plus(first);
        first = first.times(z).plus(value);
        value = value.times(z).plus(coefficients[j]);
    }
    Evaluation { value, first, second }
}

/// The pattern of 1e-16, the modulus at or below which a value of the
/// polynomial counts as a root.
pub const TINY_BITS: u64 = 0x3c9c_d2b2_97d8_89bc;

/// The most iterations one Laguerre search makes.
pub const LAGUERRE_ROUNDS: usize = 20;

/// The real value `x` as a complex one.
pub open spec fn lifted(x: u64) -> ComplexValue {
    ComplexValue { re: x, im: 0 }
}

/// `G = -p' / p`
pub open spec fn laguerre_g(e: Jet) -> ComplexValue {
    complex_quotient(complex_negated(e.first), e.value)
}

/// `H = G^2 - 2 (p'' / 2) / p`
pub open spec fn laguerre_h(e: Jet) -> ComplexValue {
    complex_difference(
        complex_product(laguerre_g(e), laguerre_g(e)),
        complex_quotient(complex_product(lifted(TWO_BITS), e.second), e.value),
    )
}

/// `(n - 1) (n H - G^2)`, whose square root the step needs.
pub open spec fn laguerre_radicand_of(e: Jet, n: usize) -> ComplexValue {
    complex_product(
        lifted(real_of_count((n - 1) as usize)),
        complex_difference(
            complex_product(lifted(real_of_count(n)), laguerre_h(e)),
            complex_product(laguerre_g(e), laguerre_g(e)),
        ),
    )
}

/// The point after one Laguerre step from `z`: `z + n / (G + r)` where
/// `G + r` has the larger modulus, else `z + n / (G - r)`; `r` is the square
/// root of the radicand and `norm_plus`, `norm_minus` are the moduli of
/// `G + r` and `G - r`.
pub open spec fn laguerre_stepped(
    z: ComplexValue,
    e: Jet,
    n: usize,
    r: ComplexValue,
    norm_plus: u64,
    norm_minus: u64,
) -> ComplexValue {
    let plus = complex_sum(laguerre_g(e), r);
    let minus = complex_difference(laguerre_g(e), r);
    if less(norm_minus, norm_plus) {
        complex_sum(z, complex_quotient(lifted(real_of_count(n)), plus))
    } else {
        complex_sum(z, complex_quotient(lifted(real_of_count(n)), minus))
    }
}

/// The point one Laguerre step after `z` on the polynomial `c`, taken with
/// the square root `r` of the radicand and the moduli `norm_plus` and
/// `norm_minus` of the two denominators.
pub open spec fn laguerre_next(
    c: Seq<ComplexValue>,
    z: ComplexValue,
    r: ComplexValue,
    norm_plus: u64,
    norm_minus: u64,
) -> ComplexValue {
    laguerre_stepped(z, evaluated(c, z), (c.len() - 1) as usize, r, norm_plus, norm_minus)
}

/// What one round of a search takes from outside: the modulus of the
/// polynomial at the point where the search stands, the square root of the
/// radicand there, and the moduli of the two denominators.
pub struct Draw {
    pub modulus: u64,
    pub root: ComplexValue,
    pub norm_plus: u64,
    pub norm_minus: u64,
}

/// Whether a modulus is at most 1e-16, so that its point counts as a root.
pub open spec fn tiny(modulus: u64) -> bool {
    less(modulus, TINY_BITS) || same(modulus, TINY_BITS)
}

/// One round of a search on `c` that stands at `z`: nothing where the
/// modulus drawn is tiny, so that the search stops at `z`; else the point one
/// Laguerre step on.
pub open spec fn laguerre_round_of(c: Seq<ComplexValue>, z: ComplexValue, draw: Draw) -> Option<
    ComplexValue,
> {
    if tiny(draw.modulus) {
        None
    } else {
        Some(laguerre_next(c, z, draw.root, draw.norm_plus, draw.norm_minus))
    }
}

/// Where a search on `c` stands that started at `start` and took a step for
/// each of `draws`.
pub open spec fn laguerre_run(c: Seq<ComplexValue>, start: ComplexValue, draws: Seq<Draw>) -> ComplexValue
    decreases draws.len(),
{
    if draws.len() == 0 {
        start
    } else {
        laguerre_next(
            c,
            laguerre_run(c, start, draws.drop_last()),
            draws.last().root,
            draws.last().norm_plus,
            draws.last().norm_minus,
        )
    }
}

/// Whether a search on `c` of at most `rounds` rounds, started at `start`,
/// returns `z` when it takes a step for each of `draws` and then draws the
/// modulus `stop`: no step follows a tiny modulus, and the search ends
/// before its last round only at a tiny modulus.
pub open spec fn laguerre_stops_at(
    c: Seq<ComplexValue>,
    start: ComplexValue,
    z: ComplexValue,
    rounds: nat,
    draws: Seq<Draw>,
    stop: u64,
) -> bool {
    &&& draws.len() <= rounds
    &&& forall|i: int| 0 <= i < draws.len() ==> !tiny(#[trigger] draws[i].modulus)
    &&& z == laguerre_run(c, start, draws)
    &&& draws.len() < rounds ==> tiny(stop)
}

/// Whether a search on `c` of at most `rounds` rounds, started at `start`,
/// can return `z`: whether there are draws with which it does.
pub open spec fn laguerre_reaches(
    c: Seq<ComplexValue>,
    start: ComplexValue,
    z: ComplexValue,
    rounds: nat,
) -> bool {
    exists|draws: Seq<Draw>, stop: u64| #[trigger] laguerre_stops_at(c, start, z, rounds, draws, stop)
}

/// The value of a complex number that may be missing.
pub open spec fn optional_complex(z: Option<Complex>) -> Option<ComplexValue> {
    match z {
        Some(v) => Some(v@),
        None => None,
    }
}

/// Whether a modulus is small enough for its point to count as a root.
pub fn is_tiny(norm: Real) -> (r: bool)
    ensures
        r == tiny(norm@),
{
    norm.le(Real::from_bits(TINY_BITS))
}

/// `G = -p' / p` of an evaluation.
fn laguerre_gradient(e: &Evaluation) -> (g: Complex)
    ensures
        g@ == laguerre_g(e@),
{
    e.first.neg().over(e.value)
}

/// The radicand of a Laguerre step for a polynomial of `n + 1` coefficients
/// evaluated as `e`.
pub fn laguerre_radicand(e: &Evaluation, n: usize) -> (r: Complex)
    requires
        n >= 1,
    ensures
        r@ == laguerre_radicand_of(e@, n),
{
    let g = laguerre_gradient(e);
    let g2 = g.times(g);
    let two = Complex::from_real(Real::from_bits(TWO_BITS));
    let h = g2.minus(two.times(e.second).over(e.value));
    let n_here = Complex::from_real(Real::from_count(n));
    let n_less = Complex::from_real(Real::from_count(n - 1));
    n_less.times(n_here.times(h).minus(g2))
}

/// One Laguerre step from `z`, given the square root `r` of the radicand and
/// the moduli of `G + r` and `G - r`.
pub fn laguerre_step(
    z: Complex,
    e: &Evaluation,
    n: usize,
    r: Complex,
    norm_plus: Real,
    norm_minus: Real,
) -> (next: Complex)
    ensures
        next@ == laguerre_stepped(z@, e@, n, r@, norm_plus@, norm_minus@),
{
    let g = laguerre_gradient(e);
    let n_here = Complex::from_real(Real::from_count(n));
    if norm_plus.gt(norm_minus) {
        z.plus(n_here.over(g.plus(r)))
    } else {
        z.plus(n_here.over(g.minus(r)))
    }
}

/// One round of a search that stands at `z`, given what the round draws:
/// the modulus of the polynomial at `z`, the square root `r` of the radicand
/// and the moduli of `G + r` and `G - r`. `None` where the modulus is tiny
/// and the search stops at `z`, else the next point.
pub fn laguerre_round(
    coefficients: &[Complex],
    z: Complex,
    modulus: Real,
    r: Complex,
    norm_plus: Real,
    norm_minus: Real,
) -> (next: Option<Complex>)
    requires
        coefficients@.len() >= 1,
    ensures
        optional_complex(next) == laguerre_round_of(
            complex_values(coefficients@),
            z@,
            Draw { modulus: modulus@, root: r@, norm_plus: norm_plus@, norm_minus: norm_minus@ },
        ),
{
    if is_tiny(modulus) {
        None
    } else {
        let e = evaluate(coefficients, z);
        Some(laguerre_step(z, &e, coefficients.len() - 1, r, norm_plus, norm_minus))
    }
}

/// The two denominators of a Laguerre step, `G + r` and `G - r`.
fn laguerre_denominators(e: &Evaluation, r: Complex) -> (d: (Complex, Complex))
    ensures
        d.0@ == complex_sum(laguerre_g(e@), r@),
        d.1@ == complex_difference(laguerre_g(e@), r@),
{
    let g = laguerre_gradient(e);
    (g.plus(r), g.minus(r))
}

/// Synthetic division of `c` by `z + o`, carried from the degree of `c` down
/// to index `i`: going down, each entry below the degree has the product of
/// `o` and the entry above it subtracted.
pub open spec fn synthetic(c: Seq<ComplexValue>, o: ComplexValue, i: int) -> Seq<ComplexValue>
    decreases degree_of(c) - i,
{
    if i >= degree_of(c) {
        c
    } else {
        let up = synthetic(c, o, i + 1);
        up.update(i, complex_difference(up[i], complex_product(up[i + 1], o)))
    }
}

/// The quotient of `c` by `z + o`, in the length of `c`: below the degree the
/// entries of the finished synthetic division shifted down by one, a zero at
/// the degree, `c` above it.
pub open spec fn quotient_of(c: Seq<ComplexValue>, o: ComplexValue) -> Seq<ComplexValue> {
    Seq::new(
        c.len(),
        |i: int|
            if i < degree_of(c) {
                synthetic(c, o, 0)[i + 1]
            } else if i == degree_of(c) {
                ComplexValue { re: 0, im: 0 }
            } else {
                c[i]
            },
    )
}

/// `r` with its highest non-zero entry set to zero, `k` times over.
pub open spec fn topped(r: Seq<ComplexValue>, k: nat) -> Seq<ComplexValue>
    decreases k,
{
    if k == 0 {
        r
    } else {
        let before = topped(r, (k - 1) as nat);
        before.update(degree_of(before), ComplexValue { re: 0, im: 0 })
    }
}

/// What division by `z + o` leaves in a scratch that held `scratch`: the
/// finished synthetic division of `c` in front of the rest of `scratch`, with
/// as many highest non-zero entries cleared as `c` has degree.
pub open spec fn remainder_of(
    c: Seq<ComplexValue>,
    o: ComplexValue,
    scratch: Seq<ComplexValue>,
) -> Seq<ComplexValue> {
    topped(
        synthetic(c, o, 0) + scratch.subrange(c.len() as int, scratch.len() as int),
        degree_of(c) as nat,
    )
}

/// Synthetic division keeps the length and touches no entry at or above the
/// index it has reached, nor any at or above the degree.
pub proof fn lemma_synthetic(c: Seq<ComplexValue>, o: ComplexValue, i: int)
    requires
        0 <= i,
    ensures
        synthetic(c, o, i).len() == c.len(),
        forall|k: int| 0 <= k < i && k < c.len() ==> #[trigger] synthetic(c, o, i)[k] == c[k],
        forall|k: int|
            degree_of(c) <= k < c.len() ==> #[trigger] synthetic(c, o, i)[k] == c[k],
    decreases degree_of(c) - i,
{
    lemma_degree(c);
    if i < degree_of(c) {
        lemma_synthetic(c, o, i + 1);
    }
}

/// An index that holds a non-zero coefficient and has only zeros above it is
/// the degree.
pub proof fn lemma_degree_is(c: Seq<ComplexValue>, d: int)
    requires
        0 <= d < c.len(),
        !complex_is_zero(c[d]),
        forall|i: int| d < i < c.len() ==> complex_is_zero(#[trigger] c[i]),
    ensures
        degree_of(c) == d,
{
    lemma_degree(c);
    let e = degree_of(c);
    if e < d {
        assert(complex_is_zero(c[d]));
    }
    if d < e {
        assert(!vanishes(c));
        assert(complex_is_zero(c[e]));
    }
}

/// Dividing out a linear factor lowers the degree by exactly one and keeps
/// the leading coefficient.
pub proof fn lemma_quotient_degree(c: Seq<ComplexValue>, o: ComplexValue)
    requires
        degree_of(c) >= 1,
    ensures
        quotient_of(c, o).len() == c.len(),
        degree_of(quotient_of(c, o)) == degree_of(c) - 1,
        quotient_of(c, o)[degree_of(c) - 1] == c[degree_of(c)],
{
    lemma_degree(c);
    lemma_synthetic(c, o, 0);
    let q = quotient_of(c, o);
    let d = degree_of(c);
    assert(!vanishes(c)) by {
        if vanishes(c) {
            assert(degree_of(c) == 0);
        }
    }
    assert(q[d - 1] == synthetic(c, o, 0)[d]);
    lemma_degree_is(q, d - 1);
}

/// The root of `c0 + c1 z`.
pub open spec fn linear_root(c0: ComplexValue, c1: ComplexValue) -> ComplexValue {
    complex_quotient(complex_negated(c0), c1)
}

/// `c1^2 - 4 c2 c0`, whose square root the quadratic formula needs.
pub open spec fn quadratic_radicand_of(
    c0: ComplexValue,
    c1: ComplexValue,
    c2: ComplexValue,
) -> ComplexValue {
    complex_difference(
        complex_product(c1, c1),
        complex_product(complex_product(lifted(FOUR_BITS), c2), c0),
    )
}

/// The roots `(-c1 + d) / (2 c2)` and `(-c1 - d) / (2 c2)` of a quadratic, `d`
/// being the square root of its radicand.
pub open spec fn quadratic_roots_of(c1: ComplexValue, c2: ComplexValue, d: ComplexValue) -> (
    ComplexValue,
    ComplexValue,
) {
    (
        complex_quotient(complex_sum(complex_negated(c1), d), complex_sum(c2, c2)),
        complex_quotient(complex_difference(complex_negated(c1), d), complex_sum(c2, c2)),
    )
}

/// The root of `c0 + c1 z`.
pub fn solve_linear(c0: Complex, c1: Complex) -> (root: Complex)
    ensures
        root@ == linear_root(c0@, c1@),
{
    c0.neg().over(c1)
}

/// The radicand of `c0 + c1 z + c2 z^2`.
pub fn quadratic_radicand(c0: Complex, c1: Complex, c2: Complex) -> (r: Complex)
    ensures
        r@ == quadratic_radicand_of(c0@, c1@, c2@),
{
    let four = Complex::from_real(Real::from_bits(FOUR_BITS));
    c1.times(c1).minus(four.times(c2).times(c0))
}

/// The two roots of a quadratic with linear coefficient `c1` and leading
/// coefficient `c2`, given the square root `d` of its radicand.
pub fn solve_quadratic(c1: Complex, c2: Complex, d: Complex) -> (roots: (Complex, Complex))
    ensures
        (roots.0@, roots.1@) == quadratic_roots_of(c1@, c2@, d@),
{
    let a2 = c2.plus(c2);
    let x = c1.neg();
    (x.plus(d).over(a2), x.minus(d).over(a2))
}

/// How much scratch root finding needs for `c`: twice the length for the
/// root list, and two regions that each hold the coefficients between the low
/// offset and the degree.
pub open spec fn roots_scratch(c: Seq<ComplexValue>) -> int {
    2 * c.len() + 2 * (degree_of(c) - low_offset_of(c) + 1)
}

/// The scratch that `find_roots_work_size` asks for is enough for root
/// finding.
pub proof fn lemma_work_size_suffices(c: Seq<ComplexValue>)
    ensures
        roots_scratch(c) <= 6 * c.len() + 4,
{
    lemma_degree(c);
    lemma_low_offset(c);
}

/// Where every search for a root starts: `-2 - 2i`.
pub open spec fn root_seed() -> ComplexValue {
    ComplexValue { re: MINUS_TWO_BITS, im: MINUS_TWO_BITS }
}

/// What is left of `c` once its zero roots are set aside and the first `k` of
/// the other roots in `roots` are divided out: the coefficients from the low
/// offset to the degree, divided in turn by `z - r` for each such root `r`.
pub open spec fn deflated(c: Seq<ComplexValue>, roots: Seq<ComplexValue>, k: nat) -> Seq<
    ComplexValue,
>
    decreases k,
{
    if k == 0 {
        c.subrange(low_offset_of(c), degree_of(c) + 1)
    } else {
        quotient_of(
            deflated(c, roots, (k - 1) as nat),
            complex_negated(roots[low_offset_of(c) + k - 1]),
        )
    }
}

/// Whether the root of index `k` after the zero roots is one that a search
/// from the seed can return on what the roots before it leave of `c`.
pub open spec fn searched(c: Seq<ComplexValue>, roots: Seq<ComplexValue>, k: int) -> bool {
    laguerre_reaches(
        deflated(c, roots, k as nat),
        root_seed(),
        roots[low_offset_of(c) + k],
        LAGUERRE_ROUNDS as nat,
    )
}

/// Whether the first `k` roots after the zero roots are each found by
/// search and not zero, so that each can be divided out.
pub open spec fn peeled(c: Seq<ComplexValue>, roots: Seq<ComplexValue>, k: int) -> bool {
    forall|j: int|
        0 <= j < k ==> #[trigger] searched(c, roots, j) && !complex_is_zero(
            roots[low_offset_of(c) + j],
        )
}

/// Whether root finding on `c` gets stuck at the root of index `k` after the
/// zero roots: the roots before it are peeled off, and the search for this
/// one returns zero, which cannot be divided out.
pub open spec fn stuck_at(c: Seq<ComplexValue>, roots: Seq<ComplexValue>, k: int) -> bool {
    &&& 0 <= k < degree_of(c) - low_offset_of(c) - 2
    &&& peeled(c, roots, k)
    &&& searched(c, roots, k)
    &&& complex_is_zero(roots[low_offset_of(c) + k])
}

/// Whether root finding on `c` can fail at deflation: whether there are
/// roots, found by search one after the other, the last of which is zero.
pub open spec fn deflation_fails(c: Seq<ComplexValue>) -> bool {
    exists|roots: Seq<ComplexValue>, k: int| #[trigger] stuck_at(c, roots, k)
}

/// Whether `roots` can be the roots found for `c`: as many as the degree, in
/// the order in which they are peeled off. First a zero for each power of `z`
/// that divides the polynomial. A single root left is the solution of the
/// linear equation. Of more, all but the last two are each found by search on
/// what the roots before leave of the polynomial, and are not zero; the last
/// two solve the quadratic equation that is left then.
pub open spec fn roots_found(c: Seq<ComplexValue>, roots: Seq<ComplexValue>) -> bool {
    let hi = degree_of(c);
    let lo = low_offset_of(c);
    let last = deflated(c, roots, (hi - lo - 2) as nat);
    &&& roots.len() == hi
    &&& forall|i: int| 0 <= i < lo ==> #[trigger] roots[i] == ComplexValue { re: 0, im: 0 }
    &&& hi - lo == 1 ==> roots[lo] == linear_root(c[lo], c[lo + 1])
    &&& hi - lo >= 2 ==> peeled(c, roots, hi - lo - 2)
    &&& hi - lo >= 2 ==> exists|d: ComplexValue|
        (roots[hi - 2], roots[hi - 1]) == #[trigger] quadratic_roots_of(last[1], last[2], d)
}

/// What is left after `k` roots depends on those roots alone.
pub proof fn lemma_deflated_frame(
    c: Seq<ComplexValue>,
    roots: Seq<ComplexValue>,
    others: Seq<ComplexValue>,
    k: nat,
)
    requires
        forall|j: int|
            low_offset_of(c) <= j < low_offset_of(c) + k ==> #[trigger] roots[j] == others[j],
    ensures
        deflated(c, roots, k) == deflated(c, others, k),
    decreases k,
{
    if k > 0 {
        lemma_deflated_frame(c, roots, others, (k - 1) as nat);
        assert(roots[low_offset_of(c) + k - 1] == others[low_offset_of(c) + k - 1]);
    }
}

/// Whether the first `k` roots are peeled off depends on those roots alone.
pub proof fn lemma_peeled_frame(
    c: Seq<ComplexValue>,
    roots: Seq<ComplexValue>,
    others: Seq<ComplexValue>,
    k: int,
)
    requires
        peeled(c, roots, k),
        forall|j: int|
            low_offset_of(c) <= j < low_offset_of(c) + k ==> #[trigger] roots[j] == others[j],
    ensures
        peeled(c, others, k),
{
    assert forall|j: int| 0 <= j < k implies #[trigger] searched(c, others, j)
        && !complex_is_zero(others[low_offset_of(c) + j]) by {
        lemma_deflated_frame(c, roots, others, j as nat);
        assert(searched(c, roots, j));
        assert(roots[low_offset_of(c) + j] == others[low_offset_of(c) + j]);
    }
}

/// Whether `out` is the root list `roots_found` allows for `c`, followed by
/// zeros up to the length of `c`.
pub open spec fn roots_stored(c: Seq<ComplexValue>, out: Seq<ComplexValue>) -> bool {
    &&& out.len() == c.len()
    &&& roots_found(c, out.take(degree_of(c)))
    &&& forall|i: int| degree_of(c) <= i < out.len() ==> #[trigger] out[i] == ComplexValue {
        re: 0,
        im: 0,
    }
}

/// A polynomial held as its coefficients, index by power.
pub trait Polynomial {
    /// The values of the coefficients.
    spec fn coefficients(&self) -> Seq<ComplexValue>;

    /// Index of the highest non-zero coefficient, 0 for the zero polynomial.
    fn degree(&self) -> (d: usize)
        ensures
            d == degree_of(self.coefficients()),
    ;

    /// Index of the lowest non-zero coefficient, 0 for the zero polynomial.
    fn off_low(&self) -> (lo: usize)
        ensures
            lo == low_offset_of(self.coefficients()),
    ;

    /// Searches a root from `start` in at most `LAGUERRE_ROUNDS` rounds. A
    /// round draws the modulus of the polynomial where the search stands and
    /// stops there if it is tiny; else it draws a square root and two more
    /// moduli and takes a Laguerre step. The rounding of what is drawn is not
    /// fixed; `laguerre_round` states a round exactly for given draws.
    fn laguerre(&self, start: Complex) -> (root: Complex)
        requires
            self.coefficients().len() >= 2,
        ensures
            laguerre_reaches(self.coefficients(), start@, root@, LAGUERRE_ROUNDS as nat),
    ;

    /// The scratch that root finding asks a caller to supply.
    fn find_roots_work_size(&self) -> (size: usize)
        requires
            6 * self.coefficients().len() + 4 <= usize::MAX,
        ensures
            size == 6 * self.coefficients().len() + 4,
    ;

    /// The roots, as many as the degree, in the order in which they are
    /// peeled off: the zero roots, then the roots found by search, each
    /// divided out before the next is sought, then the two roots of the
    /// quadratic that is left, or the one of the linear equation. Fails on a
    /// polynomial of degree zero, and where a root found by search is zero
    /// and cannot be divided out.
    fn find_roots(&self) -> (result: VoxBoxResult<Vec<Complex>>)
        requires
            6 * self.coefficients().len() + 4 <= usize::MAX,
        ensures
            result == Err::<Vec<Complex>, VoxBoxError>(
                VoxBoxError::Polynomial(PolynomialFault::ZeroDegree),
            ) <==> degree_of(self.coefficients()) < 1,
            result is Err ==> degree_of(self.coefficients()) < 1 || (result == Err::<
                Vec<Complex>,
                VoxBoxError,
            >(VoxBoxError::Polynomial(PolynomialFault::FailedDeflation)) && degree_of(
                self.coefficients(),
            ) - low_offset_of(self.coefficients()) >= 3),
            result == Err::<Vec<Complex>, VoxBoxError>(
                VoxBoxError::Polynomial(PolynomialFault::FailedDeflation),
            ) ==> deflation_fails(self.coefficients()),
            result matches Ok(roots) ==> roots_found(
                self.coefficients(),
                complex_values(roots@),
            ),
    ;

    /// Replaces the coefficients by the roots, in the order in which they
    /// are peeled off, followed by zeros, using `work` as scratch. Fails,
    /// leaving the coefficients as they were, on a polynomial of degree zero,
    /// where `work` is left as it was too, and where a root found by search is
    /// zero and cannot be divided out.
    fn find_roots_mut(&mut self, work: &mut [Complex]) -> (result: VoxBoxResult<()>)
        requires
            degree_of(old(self).coefficients()) >= 1 ==> old(work)@.len() >= roots_scratch(
                old(self).coefficients(),
            ),
        ensures
            final(work)@.len() == old(work)@.len(),
            result == Err::<(), VoxBoxError>(
                VoxBoxError::Polynomial(PolynomialFault::ZeroDegree),
            ) <==> degree_of(old(self).coefficients()) < 1,
            result == Err::<(), VoxBoxError>(VoxBoxError::Polynomial(PolynomialFault::ZeroDegree))
                ==> final(work)@ == old(work)@,
            result is Err ==> final(self).coefficients() == old(self).coefficients() && (
            degree_of(old(self).coefficients()) < 1 || (result == Err::<(), VoxBoxError>(
                VoxBoxError::Polynomial(PolynomialFault::FailedDeflation),
            ) && degree_of(old(self).coefficients()) - low_offset_of(old(self).coefficients())
                >= 3)),
            result == Err::<(), VoxBoxError>(
                VoxBoxError::Polynomial(PolynomialFault::FailedDeflation),
            ) ==> deflation_fails(old(self).coefficients()),
            result is Ok ==> roots_stored(old(self).coefficients(), final(self).coefficients()),
    ;

    /// Divides by `z + other`: the coefficients become the quotient and the
    /// scratch of the division is returned. Fails on a zero `other`.
    fn div_polynomial(&mut self, other: Complex) -> (result: VoxBoxResult<Vec<Complex>>)
        requires
            !complex_is_zero(other@) ==> degree_of(old(self).coefficients()) >= 1,
        ensures
            final(self).coefficients().len() == old(self).coefficients().len(),
            result == Err::<Vec<Complex>, VoxBoxError>(
                VoxBoxError::Polynomial(PolynomialFault::DivideByZero),
            ) <==> complex_is_zero(other@),
            result is Err ==> complex_is_zero(other@) && final(self).coefficients() == old(
                self,
            ).coefficients(),
            result matches Ok(rem) ==> final(self).coefficients() == quotient_of(
                old(self).coefficients(),
                other@,
            ) && complex_values(rem@) == remainder_of(
                old(self).coefficients(),
                other@,
                old(self).coefficients(),
            ),
    ;

    /// Divides by `z + other`: the coefficients become the quotient, and
    /// `rem` is left holding the scratch of the division. Fails on a zero
    /// `other`, with the coefficients copied to the front of `rem`.
    fn div_polynomial_mut(&mut self, other: Complex, rem: &mut [Complex]) -> (result:
        VoxBoxResult<()>)
        requires
            old(rem)@.len() >= old(self).coefficients().len(),
            !complex_is_zero(other@) ==> degree_of(old(self).coefficients()) >= 1,
        ensures
            final(self).coefficients().len() == old(self).coefficients().len(),
            final(rem)@.len() == old(rem)@.len(),
            result == Err::<(), VoxBoxError>(
                VoxBoxError::Polynomial(PolynomialFault::DivideByZero),
            ) <==> complex_is_zero(other@),
            result is Err ==> complex_is_zero(other@) && final(self).coefficients() == old(
                self,
            ).coefficients() && complex_values(final(rem)@) == old(self).coefficients()
                + complex_values(old(rem)@).subrange(
                old(self).coefficients().len() as int,
                old(rem)@.len() as int,
            ),
            result is Ok ==> final(self).coefficients() == quotient_of(
                old(self).coefficients(),
                other@,
            ) && complex_values(final(rem)@) == remainder_of(
                old(self).coefficients(),
                other@,
                complex_values(old(rem)@),
            ),
    ;
}

impl Polynomial for [Complex] {
    open spec fn coefficients(&self) -> Seq<ComplexValue> {
        complex_values(self@)
    }

    fn degree(&self) -> (d: usize) {
        let ghost c = complex_values(self@);
        let mut i = self.len();
        assert(c.take(i as int) == c);
        while i > 0
            invariant
                i <= self@.len(),
                c == complex_values(self@),
                degree_of(c) == degree_of(c.take(i as int)),
            decreases i,
        {
            assert(c.take(i as int).drop_last() == c.take(i - 1));
            if !self[i - 1].is_zero() {
                return i - 1;
            }
            i -= 1;
        }
        assert(c.take(self@.len() as int) == c);
        0
    }

    fn off_low(&self) -> (lo: usize) {
        let ghost c = complex_values(self@);
        let mut i: usize = 0;
        while i < self.len()
            invariant
                i <= self@.len(),
                c == complex_values(self@),
                low_offset_of(c) == first_nonzero(c, i as int),
            decreases self@.len() - i,
        {
            if !self[i].is_zero() {
                return i;
            }
            i += 1;
        }
        0
    }

    fn laguerre(&self, start: Complex) -> (root: Complex) {
        let ghost c = complex_values(self@);
        let ghost mut draws: Seq<Draw> = Seq::empty();
        let n = self.len() - 1;
        let mut z = start;
        let mut round: usize = 0;
        while round < LAGUERRE_ROUNDS
            invariant
                self@.len() >= 2,
                n == self@.len() - 1,
                c == complex_values(self@),
                round <= LAGUERRE_ROUNDS,
                draws.len() == round,
                forall|i: int| 0 <= i < draws.len() ==> !tiny(#[trigger] draws[i].modulus),
                z@ == laguerre_run(c, start@, draws),
            decreases LAGUERRE_ROUNDS - round,
        {
            let e = evaluate(self, z);
            let modulus = e.value.norm();
            if is_tiny(modulus) {
                assert(laguerre_stops_at(
                    c,
                    start@,
                    z@,
                    LAGUERRE_ROUNDS as nat,
                    draws,
                    modulus@,
                ));
                return z;
            }
            let r = laguerre_radicand(&e, n).sqrt();
            let (plus, minus) = laguerre_denominators(&e, r);
            let norm_plus = plus.norm();
            let norm_minus = minus.norm();
            let next = laguerre_step(z, &e, n, r, norm_plus, norm_minus);
            proof {
                let draw = Draw {
                    modulus: modulus@,
                    root: r@,
                    norm_plus: norm_plus@,
                    norm_minus: norm_minus@,
                };
                assert(next@ == laguerre_next(c, z@, r@, norm_plus@, norm_minus@));
                assert(draws.push(draw).drop_last() =~= draws);
                draws = draws.push(draw);
            }
            z = next;
            round += 1;
        }
        assert(laguerre_stops_at(c, start@, z@, LAGUERRE_ROUNDS as nat, draws, 0));
        z
    }

    fn find_roots_work_size(&self) -> (size: usize) {
        self.len() * 6 + 4
    }

    fn find_roots(&self) -> (result: VoxBoxResult<Vec<Complex>>) {
        let size = self.find_roots_work_size();
        let mut work: Vec<Complex> = vec![Complex::zero(); size];
        let mut other: Vec<Complex> = Vec::new();
        let mut i: usize = 0;
        while i < self.len()
            invariant
                i <= self@.len(),
                other@ == self@.take(i as int),
            decreases self@.len() - i,
        {
            other.push(self[i]);
            assert(self@.take(i + 1) == self@.take(i as int).push(self@[i as int]));
            i += 1;
        }
        assert(self@.take(self@.len() as int) == self@);
        let hi = self.degree();
        proof {
            lemma_degree(complex_values(self@));
            lemma_low_offset(complex_values(self@));
        }
        match other.as_mut_slice().find_roots_mut(work.as_mut_slice()) {
            Err(e) => Err(e),
            Ok(()) => {
                let ghost stored = complex_values(other@);
                other.truncate(hi);
                assert(complex_values(other@) == stored.take(hi as int));
                Ok(other)
            },
        }
    }

    #[verifier::loop_isolation(false)]
    #[verifier::rlimit(40)]
    fn find_roots_mut(&mut self, work: &mut [Complex]) -> (result: VoxBoxResult<()>) {
        let ghost c = complex_values(self@);
        let ghost zero = ComplexValue { re: 0, im: 0 };
        let hi = self.degree();
        if hi < 1 {
            return Err(VoxBoxError::Polynomial(PolynomialFault::ZeroDegree));
        }
        let lo = self.off_low();
        proof {
            lemma_degree(c);
            lemma_low_offset(c);
        }
        let len = self.len();
        let span = hi - lo;
        let ghost available = work.len();
        assert(available >= roots_scratch(c));
        let (z_roots, scratch) = work.split_at_mut(2 * len);
        let (rem, scratch) = scratch.split_at_mut(span + 1);
        let (coeffs, _) = scratch.split_at_mut(span + 1);
        let mut count: usize = 0;
        while count < lo
            invariant
                count <= lo <= hi < len,
                z_roots@.len() == 2 * len,
                forall|i: int| 0 <= i < count ==> #[trigger] z_roots@[i]@ == zero,
            decreases lo - count,
        {
            z_roots[count] = Complex::zero();
            count += 1;
        }
        let mut k: usize = 0;
        while k <= span
            invariant
                k <= span + 1,
                span == hi - lo,
                lo <= hi < len,
                len == self@.len(),
                coeffs@.len() == span + 1,
                c == complex_values(self@),
                forall|i: int| 0 <= i < k ==> #[trigger] coeffs@[i]@ == c[lo + i],
            decreases span + 1 - k,
        {
            coeffs[k] = self[lo + k];
            k += 1;
        }
        proof {
            lemma_degree_is(complex_values(coeffs@), span as int);
            assert(complex_values(coeffs@) =~= deflated(c, complex_values(z_roots@), 0));
        }
        let mut m = span;
        while m > 2
            invariant
                m <= span,
                span == hi - lo,
                lo <= hi < len,
                count + m == hi,
                z_roots@.len() == 2 * len,
                rem@.len() == span + 1,
                coeffs@.len() == span + 1,
                degree_of(complex_values(coeffs@)) == m,
                m < span ==> span >= 3,
                span >= 2 ==> m >= 2,
                complex_values(coeffs@) == deflated(
                    c,
                    complex_values(z_roots@),
                    (span - m) as nat,
                ),
                peeled(c, complex_values(z_roots@), span - m),
                forall|i: int| 0 <= i < lo ==> #[trigger] z_roots@[i]@ == zero,
                complex_values(self@) == c,
            decreases m,
        {
            let ghost k = span - m;
            let ghost found_before = complex_values(z_roots@);
            let ghost before = complex_values(coeffs@);
            let start = Complex::new(
                Real::from_bits(MINUS_TWO_BITS),
                Real::from_bits(MINUS_TWO_BITS),
            );
            let z = coeffs.laguerre(start);
            z_roots[count] = z;
            count += 1;
            let ghost found = complex_values(z_roots@);
            proof {
                assert(start@ == root_seed());
                assert(found[lo + k] == z@);
                lemma_peeled_frame(c, found_before, found, k);
                lemma_deflated_frame(c, found_before, found, k as nat);
                assert(searched(c, found, k));
            }
            let divisor = z.neg();
            match coeffs.div_polynomial_mut(divisor, rem) {
                Err(_) => {
                    proof {
                        assert(complex_is_zero(z@));
                        assert(stuck_at(c, found, k));
                    }
                    return Err(VoxBoxError::Polynomial(PolynomialFault::FailedDeflation));
                },
                Ok(()) => {},
            }
            proof {
                lemma_quotient_degree(before, divisor@);
                assert(!complex_is_zero(z@));
                assert(complex_values(coeffs@) == deflated(c, found, (k + 1) as nat));
                assert(peeled(c, found, k + 1));
            }
            m -= 1;
        }
        let ghost peeled_roots = complex_values(z_roots@);
        let ghost residual = complex_values(coeffs@);
        let ghost mut root_of: ComplexValue = zero;
        if m == 2 {
            let d = quadratic_radicand(coeffs[0], coeffs[1], coeffs[2]).sqrt();
            let (first, second) = solve_quadratic(coeffs[1], coeffs[2], d);
            z_roots[count] = first;
            z_roots[count + 1] = second;
            count += 2;
            proof {
                root_of = d@;
            }
        } else if m == 1 {
            z_roots[count] = solve_linear(coeffs[0], coeffs[1]);
            count += 1;
        }
        let ghost stored = complex_values(z_roots@);
        let mut k: usize = 0;
        while k < len
            invariant
                k <= len,
                len == self@.len(),
                hi < len,
                z_roots@.len() == 2 * len,
                forall|i: int| 0 <= i < k && i < hi ==> #[trigger] self@[i]@ == z_roots@[i]@,
                forall|i: int| hi <= i < k ==> #[trigger] self@[i]@ == zero,
            decreases len - k,
        {
            if k < hi {
                self[k] = z_roots[k];
            } else {
                self[k] = Complex::zero();
            }
            k += 1;
        }
        proof {
            let out = complex_values(self@);
            let roots = out.take(hi as int);
            assert forall|i: int| 0 <= i < lo implies #[trigger] roots[i] == zero by {
                assert(roots[i] == self@[i]@);
            }
            assert forall|i: int| lo <= i < hi implies #[trigger] roots[i] == stored[i] by {
                assert(roots[i] == self@[i]@);
            }
            if span == 1 {
                assert(roots[lo as int] == self@[lo as int]@);
                assert(residual[0] == c[lo as int]);
                assert(residual[1] == c[lo + 1]);
            }
            if span >= 2 {
                let k = (span - 2) as nat;
                lemma_peeled_frame(c, peeled_roots, stored, k as int);
                lemma_peeled_frame(c, stored, roots, k as int);
                lemma_deflated_frame(c, peeled_roots, stored, k);
                lemma_deflated_frame(c, stored, roots, k);
                assert(deflated(c, roots, k) == residual);
                assert(roots[hi - 2] == self@[hi - 2]@);
                assert(roots[hi - 1] == self@[hi - 1]@);
                assert((roots[hi - 2], roots[hi - 1]) == quadratic_roots_of(
                    residual[1],
                    residual[2],
                    root_of,
                ));
            }
            assert forall|i: int| hi <= i < out.len() implies #[trigger] out[i] == zero by {
                assert(out[i] == self@[i]@);
            }
        }
        Ok(())
    }

    fn div_polynomial(&mut self, other: Complex) -> (result: VoxBoxResult<Vec<Complex>>) {
        let mut rem: Vec<Complex> = vec![Complex::zero(); self.len()];
        match self.div_polynomial_mut(other, rem.as_mut_slice()) {
            Err(e) => Err(e),
            Ok(()) => Ok(rem),
        }
    }

    fn div_polynomial_mut(&mut self, other: Complex, rem: &mut [Complex]) -> (result:
        VoxBoxResult<()>) {
        let ghost c = complex_values(self@);
        let ghost scratch = complex_values(rem@);
        let len = self.len();
        let mut k: usize = 0;
        while k < len
            invariant
                k <= len,
                len == self@.len(),
                rem@.len() == scratch.len(),
                rem@.len() >= len,
                complex_values(self@) == c,
                forall|i: int| 0 <= i < k ==> #[trigger] rem@[i]@ == c[i],
                forall|i: int| k <= i < rem@.len() ==> #[trigger] rem@[i]@ == scratch[i],
            decreases len - k,
        {
            rem[k] = self[k];
            k += 1;
        }
        assert(complex_values(rem@) == c + scratch.subrange(len as int, scratch.len() as int));
        if other.is_zero() {
            return Err(VoxBoxError::Polynomial(PolynomialFault::DivideByZero));
        }
        let ns = self.degree();
        proof {
            lemma_degree(c);
            lemma_synthetic(c, other@, ns as int);
        }
        let mut i = ns;
        while i > 0
            invariant
                i <= ns,
                1 <= ns < len,
                ns == degree_of(c),
                len == self@.len(),
                len == c.len(),
                rem@.len() == scratch.len(),
                rem@.len() >= len,
                complex_values(rem@).take(len as int) == synthetic(c, other@, i as int),
                forall|j: int| len <= j < rem@.len() ==> #[trigger] rem@[j]@ == scratch[j],
                forall|j: int| i <= j < ns ==> #[trigger] self@[j]@ == rem@[j + 1]@,
                forall|j: int| 0 <= j < len && !(i <= j < ns) ==> #[trigger] self@[j]@ == c[j],
            decreases i,
        {
            i -= 1;
            let ghost up = synthetic(c, other@, i + 1);
            proof {
                lemma_synthetic(c, other@, i + 1);
                assert(rem@[i + 1]@ == complex_values(rem@).take(len as int)[i + 1]);
                assert(rem@[i as int]@ == complex_values(rem@).take(len as int)[i as int]);
            }
            let ghost rem_before = rem@;
            self[i] = rem[i + 1];
            rem[i] = rem[i].minus(self[i].times(other));
            proof {
                assert forall|j: int| 0 <= j < len implies #[trigger] complex_values(rem@).take(
                    len as int,
                )[j] == synthetic(c, other@, i as int)[j] by {
                    if j != i {
                        assert(rem@[j] == rem_before[j]);
                        assert(rem_before[j]@ == complex_values(rem_before).take(len as int)[j]);
                    }
                }
                assert(complex_values(rem@).take(len as int) =~= synthetic(c, other@, i as int));
                assert forall|j: int| i <= j < ns implies #[trigger] self@[j]@ == rem@[j + 1]@ by {
                    assert(rem@[j + 1] == rem_before[j + 1]);
                }
            }
        }
        let ghost divided = complex_values(rem@);
        proof {
            lemma_synthetic(c, other@, 0);
            assert(divided =~= synthetic(c, other@, 0) + scratch.subrange(
                len as int,
                scratch.len() as int,
            )) by {
                assert forall|j: int| 0 <= j < divided.len() implies divided[j] == (synthetic(
                    c,
                    other@,
                    0,
                ) + scratch.subrange(len as int, scratch.len() as int))[j] by {
                    if j < len {
                        assert(divided[j] == complex_values(rem@).take(len as int)[j]);
                    }
                }
            }
        }
        let mut t: usize = 0;
        while t < ns
            invariant
                t <= ns,
                rem@.len() == scratch.len(),
                rem@.len() >= 1,
                complex_values(rem@) == topped(divided, t as nat),
            decreases ns - t,
        {
            let top = rem.degree();
            proof {
                lemma_degree(complex_values(rem@));
            }
            rem[top] = Complex::zero();
            assert(complex_values(rem@) =~= topped(divided, (t + 1) as nat));
            t += 1;
        }
        self[ns] = Complex::zero();
        proof {
            let q = quotient_of(c, other@);
            assert forall|j: int| 0 <= j < len implies #[trigger] complex_values(self@)[j]
                == q[j] by {
                if j < ns {
                    assert(self@[j]@ == divided[j + 1]);
                }
            }
            assert(complex_values(self@) =~= q);
        }
        Ok(())
    }
}

} // verus!
