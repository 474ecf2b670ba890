//! Fixed-point complex numbers.
//!
//! A value is a pair of `i128` mantissas; the number represented is
//! `(re + im*i) / 2^p`, where `p` is the number of fractional bits the
//! caller computes at. Addition and subtraction are exact; multiplication
//! rounds each component half-away-from-zero back to `p` fractional bits.

use vstd::prelude::*;
use vstd::arithmetic::power2::{
    pow2, lemma_pow2_adds, lemma_pow2_pos, lemma_pow2_strictly_increases, lemma2_to64,
};
use vstd::arithmetic::div_mod::{
    lemma_basic_div, lemma_fundamental_div_mod, lemma_fundamental_div_mod_converse,
};

verus! {

/// The mathematical model of a fixed-point complex value: unbounded
/// integer mantissas for the real and imaginary parts.
pub ghost struct CVal {
    pub re: int,
    pub im: int,
}

/// A complex value in fixed-point form. The number represented is
/// `(re + im*i) / 2^p` for the precision `p` the caller works at.
#[derive(Clone, Copy, Debug, PartialEq, Eq, Structural)]
pub struct Cplx {
    pub re: i128,
    pub im: i128,
}

impl View for Cplx {
    type V = CVal;

    open spec fn view(&self) -> CVal {
        CVal { re: self.re as int, im: self.im as int }
    }
}

/// `|x|` over the mathematical integers.
pub open spec fn abs_i(x: int) -> int {
    if x >= 0 {
        x
    } else {
        -x
    }
}

/// Both components of `a` lie in `[-b, b]`.
pub open spec fn abs_le(a: CVal, b: int) -> bool {
    &&& -b <= a.re <= b
    &&& -b <= a.im <= b
}

/// The squared magnitude of `a` (scaled by `4^p`).
pub open spec fn norm_sq(a: CVal) -> int {
    a.re * a.re + a.im * a.im
}

/// Half of the fixed-point unit: the value added before truncating a
/// product so that it rounds to the nearest multiple, ties away from zero.
pub open spec fn half(p: nat) -> int
    recommends
        p >= 1,
{
    pow2((p - 1) as nat) as int
}

/// Rounding of `x / 2^p` to the nearest integer, ties away from zero.
pub open spec fn rnd(x: int, p: nat) -> int
    recommends
        p >= 1,
{
    if x >= 0 {
        (x + half(p)) / (pow2(p) as int)
    } else {
        -((-x + half(p)) / (pow2(p) as int))
    }
}

/// Exact complex addition of mantissa pairs.
pub open spec fn c_add_s(a: CVal, b: CVal) -> CVal {
    CVal { re: a.re + b.re, im: a.im + b.im }
}

/// Exact complex subtraction of mantissa pairs.
pub open spec fn c_sub_s(a: CVal, b: CVal) -> CVal {
    CVal { re: a.re - b.re, im: a.im - b.im }
}

/// Complex negation.
pub open spec fn c_neg_s(a: CVal) -> CVal {
    CVal { re: -a.re, im: -a.im }
}

/// Complex multiplication at `p` fractional bits: the exact product of the
/// represented numbers, each component rounded to the nearest multiple of
/// `2^-p`, ties away from zero.
pub open spec fn c_mul_s(a: CVal, b: CVal, p: nat) -> CVal
    recommends
        p >= 1,
{
    CVal {
        re: rnd(a.re * b.re - a.im * b.im, p),
        im: rnd(a.re * b.im + a.im * b.re, p),
    }
}

/// The fixed-point complex unit, `1 + 0i`.
pub open spec fn one_c(p: nat) -> CVal {
    CVal { re: pow2(p) as int, im: 0 }
}

/// Exact values of the powers of two that the executable arithmetic
/// compares against, at the top of the `u128`/`i128` range.
pub proof fn lemma_pow2_fits()
    ensures
        pow2(59) == 0x800000000000000,
        pow2(60) == 0x1000000000000000,
        pow2(61) == 0x2000000000000000,
        pow2(62) == 0x4000000000000000,
        pow2(124) == 0x10000000000000000000000000000000,
        pow2(125) == 0x20000000000000000000000000000000,
        pow2(126) == 0x40000000000000000000000000000000,
        pow2(127) == 0x80000000000000000000000000000000,
{
    lemma2_to64();
    vstd::arithmetic::power2::lemma2_to64_rest();
    lemma_pow2_adds(64, 60);
    lemma_pow2_adds(64, 61);
    lemma_pow2_adds(64, 62);
    lemma_pow2_adds(64, 63);
}

/// The rounding offset is half the fixed-point unit: `2 * half(p) = 2^p`.
pub proof fn lemma_half_range(p: nat)
    requires
        p >= 1,
    ensures
        0 < half(p),
        2 * half(p) == pow2(p),
{
    lemma_pow2_pos((p - 1) as nat);
    lemma_pow2_adds((p - 1) as nat, 1);
    lemma2_to64();
}

/// Rounding is an odd function: negating the argument negates the result.
pub proof fn lemma_rnd_neg(x: int, p: nat)
    requires
        p >= 1,
    ensures
        rnd(-x, p) == -rnd(x, p),
{
    lemma_pow2_pos(p);
    lemma_half_range(p);
    if x == 0 {
        lemma_basic_div(half(p), pow2(p) as int);
    }
}

/// An exact multiple of the unit rounds to itself.
pub proof fn lemma_rnd_exact(k: int, p: nat)
    requires
        p >= 1,
    ensures
        rnd(k * pow2(p), p) == k,
{
    lemma_pow2_pos(p);
    lemma_half_range(p);
    let d = pow2(p) as int;
    if k >= 0 {
        assert(k * d >= 0) by (nonlinear_arith)
            requires k >= 0, d > 0;
        lemma_fundamental_div_mod_converse(k * d + half(p), d, k, half(p));
    } else {
        assert(k * d < 0) by (nonlinear_arith)
            requires k < 0, d > 0;
        assert(-(k * d) == (-k) * d) by (nonlinear_arith);
        lemma_fundamental_div_mod_converse((-k) * d + half(p), d, -k, half(p));
    }
}

/// The rounded value, scaled back up, moves by at most `half(p)`.
pub proof fn lemma_rnd_scaled(x: int, p: nat)
    requires
        p >= 1,
    ensures
        abs_i(rnd(x, p) * pow2(p)) <= abs_i(x) + half(p),
{
    lemma_pow2_pos(p);
    lemma_half_range(p);
    let d = pow2(p) as int;
    let y = if x >= 0 { x + half(p) } else { -x + half(p) };
    let q = y / d;
    lemma_fundamental_div_mod(y, d);
    assert(q >= 0) by (nonlinear_arith)
        requires y == q * d + y % d, 0 <= y % d < d, y >= 0, d > 0;
    assert(q * d <= y);
    assert(q * d >= 0) by (nonlinear_arith)
        requires q >= 0, d > 0;
    if x >= 0 {
        assert(rnd(x, p) * d == q * d);
    } else {
        assert(rnd(x, p) * d == (-q) * d);
        assert((-q) * d == -(q * d)) by (nonlinear_arith);
    }
}

/// A bound on the argument gives a bound on the rounded quotient.
pub proof fn lemma_rnd_le(x: int, p: nat, b: int)
    requires
        p >= 1,
        0 <= b,
        -b <= x <= b,
    ensures
        -(b / (pow2(p) as int) + 1) <= rnd(x, p) <= b / (pow2(p) as int) + 1,
{
    lemma_pow2_pos(p);
    lemma_half_range(p);
    let d = pow2(p) as int;
    let q = b / d;
    lemma_fundamental_div_mod(b, d);
    assert(q >= 0) by (nonlinear_arith)
        requires b == q * d + b % d, 0 <= b % d < d, b >= 0, d > 0;
    let y = if x >= 0 { x + half(p) } else { -x + half(p) };
    let qy = y / d;
    lemma_fundamental_div_mod(y, d);
    assert(qy >= 0) by (nonlinear_arith)
        requires y == qy * d + y % d, 0 <= y % d < d, y >= 0, d > 0;
    assert(y <= b + half(p));
    assert(qy <= q + 1) by (nonlinear_arith)
        requires
            y == qy * d + y % d,
            0 <= y % d < d,
            y <= b + half(p),
            b == q * d + b % d,
            0 <= b % d < d,
            2 * half(p) == d,
            d > 0;
}

/// If `x^2 <= y^2` and `y >= 0` then `|x| <= y`.
pub proof fn lemma_sq_le(x: int, y: int)
    requires
        x * x <= y * y,
        y >= 0,
    ensures
        -y <= x <= y,
{
    assert(-y <= x <= y) by (nonlinear_arith)
        requires x * x <= y * y, y >= 0;
}

/// The Brahmagupta-Fibonacci identity: the squared magnitude of a complex
/// product is the product of the squared magnitudes.
#[verifier::rlimit(100)]
pub proof fn lemma_bf_identity(ar: int, ai: int, br: int, bi: int)
    ensures
        (ar * br - ai * bi) * (ar * br - ai * bi) + (ar * bi + ai * br) * (ar * bi + ai * br) == (
        ar * ar + ai * ai) * (br * br + bi * bi),
{
    let x = ar * br;
    let y = ai * bi;
    let z = ar * bi;
    let w = ai * br;
    assert((x - y) * (x - y) + (z + w) * (z + w) == x * x + y * y + z * z + w * w + 2 * (z * w - x
        * y)) by (nonlinear_arith);
    assert((ar * br) * (ar * br) == (ar * ar) * (br * br)) by (nonlinear_arith);
    assert((ai * bi) * (ai * bi) == (ai * ai) * (bi * bi)) by (nonlinear_arith);
    assert((ar * bi) * (ar * bi) == (ar * ar) * (bi * bi)) by (nonlinear_arith);
    assert((ai * br) * (ai * br) == (ai * ai) * (br * br)) by (nonlinear_arith);
    assert((ar * ar + ai * ai) * (br * br + bi * bi) == (ar * ar) * (br * br) + (ar * ar) * (bi
        * bi) + (ai * ai) * (br * br) + (ai * ai) * (bi * bi)) by (nonlinear_arith);
    assert(z * w == x * y) by (nonlinear_arith)
        requires x == ar * br, y == ai * bi, z == ar * bi, w == ai * br;
}

/// Multiplying by the fixed-point unit is exact.
pub proof fn lemma_mul_one(b: CVal, p: nat)
    requires
        p >= 1,
    ensures
        c_mul_s(one_c(p), b, p) == b,
{
    let d = pow2(p) as int;
    assert(d * b.re - 0 * b.im == b.re * d) by (nonlinear_arith);
    assert(d * b.im + 0 * b.re == b.im * d) by (nonlinear_arith);
    lemma_rnd_exact(b.re, p);
    lemma_rnd_exact(b.im, p);
}

/// Negating one factor negates the rounded product.
pub proof fn lemma_mul_neg(a: CVal, b: CVal, p: nat)
    requires
        p >= 1,
    ensures
        c_mul_s(a, c_neg_s(b), p) == c_neg_s(c_mul_s(a, b, p)),
{
    assert(a.re * (-b.re) - a.im * (-b.im) == -(a.re * b.re - a.im * b.im)) by (nonlinear_arith);
    assert(a.re * (-b.im) + a.im * (-b.re) == -(a.re * b.im + a.im * b.re)) by (nonlinear_arith);
    lemma_rnd_neg(a.re * b.re - a.im * b.im, p);
    lemma_rnd_neg(a.re * b.im + a.im * b.re, p);
}

/// A squared-magnitude bound for the rounded product: if `|a| <= ba` and
/// `|b| <= bb` as complex magnitudes, then `|a*b| <= ba*bb/2^p + 2`.
pub proof fn lemma_mul_norm(a: CVal, b: CVal, p: nat, ba: int, bb: int)
    requires
        p >= 1,
        0 <= ba,
        0 <= bb,
        norm_sq(a) <= ba * ba,
        norm_sq(b) <= bb * bb,
    ensures
        norm_sq(c_mul_s(a, b, p)) <= (ba * bb / (pow2(p) as int) + 2) * (ba * bb / (pow2(p) as int)
            + 2),
        abs_le(c_mul_s(a, b, p), ba * bb / (pow2(p) as int) + 2),
{
    lemma_pow2_pos(p);
    lemma_half_range(p);
    let d = pow2(p) as int;
    lemma_bf_identity(a.re, a.im, b.re, b.im);
    assert(a.re * a.re + a.im * a.im >= 0) by (nonlinear_arith);
    assert(b.re * b.re + b.im * b.im >= 0) by (nonlinear_arith);
    assert((a.re * a.re + a.im * a.im) * (b.re * b.re + b.im * b.im) <= (ba * bb) * (ba * bb))
        by (nonlinear_arith)
        requires
            0 <= a.re * a.re + a.im * a.im <= ba * ba,
            0 <= b.re * b.re + b.im * b.im <= bb * bb,
            0 <= ba,
            0 <= bb;
    assert(ba * bb >= 0) by (nonlinear_arith)
        requires ba >= 0, bb >= 0;
    let m = ba * bb;
    let re0 = a.re * b.re - a.im * b.im;
    let im0 = a.re * b.im + a.im * b.re;
    assert(re0 * re0 >= 0) by (nonlinear_arith);
    assert(im0 * im0 >= 0) by (nonlinear_arith);
    assert(re0 * re0 <= m * m && im0 * im0 <= m * m) by (nonlinear_arith)
        requires re0 * re0 + im0 * im0 <= m * m, re0 * re0 >= 0, im0 * im0 >= 0;
    lemma_sq_le(re0, m);
    lemma_sq_le(im0, m);
    let rr = rnd(re0, p);
    let ri = rnd(im0, p);
    lemma_rnd_scaled(re0, p);
    lemma_rnd_scaled(im0, p);
    let q = m / d;
    lemma_fundamental_div_mod(m, d);
    assert(q >= 0) by (nonlinear_arith)
        requires m == q * d + m % d, 0 <= m % d < d, m >= 0, d > 0;
    // m + d <= (q + 2) * d, since m = q*d + r with r < d.
    assert(m + d <= (q + 2) * d) by (nonlinear_arith)
        requires m == q * d + m % d, 0 <= m % d < d, d > 0;
    let ar = abs_i(re0);
    let ai = abs_i(im0);
    assert(ar * ar == re0 * re0 && ai * ai == im0 * im0) by (nonlinear_arith)
        requires ar == abs_i(re0), ai == abs_i(im0);
    // Square the per-component rounding bounds.
    assert((rr * d) * (rr * d) <= (ar + half(p)) * (ar + half(p))) by (nonlinear_arith)
        requires -(ar + half(p)) <= rr * d <= ar + half(p), ar >= 0, half(p) > 0;
    assert((ri * d) * (ri * d) <= (ai + half(p)) * (ai + half(p))) by (nonlinear_arith)
        requires -(ai + half(p)) <= ri * d <= ai + half(p), ai >= 0, half(p) > 0;
    // Sum the squares: the total stays within (m + d)^2.
    assert((ar + half(p)) * (ar + half(p)) + (ai + half(p)) * (ai + half(p)) <= (m + d) * (m + d))
        by (nonlinear_arith)
        requires
            ar * ar + ai * ai <= m * m,
            0 <= ar <= m,
            0 <= ai <= m,
            2 * half(p) == d,
            half(p) > 0;
    assert((m + d) * (m + d) <= ((q + 2) * d) * ((q + 2) * d)) by (nonlinear_arith)
        requires 0 <= m + d, m + d <= (q + 2) * d;
    // Divide the scaled inequality by d^2.
    assert(rr * rr + ri * ri <= (q + 2) * (q + 2)) by (nonlinear_arith)
        requires
            (rr * d) * (rr * d) + (ri * d) * (ri * d) <= ((q + 2) * d) * ((q + 2) * d),
            d > 0;
    assert(norm_sq(c_mul_s(a, b, p)) == rr * rr + ri * ri);
    assert(rr * rr <= (q + 2) * (q + 2) && ri * ri <= (q + 2) * (q + 2)) by (nonlinear_arith)
        requires rr * rr + ri * ri <= (q + 2) * (q + 2);
    lemma_sq_le(rr, q + 2);
    lemma_sq_le(ri, q + 2);
}

/// A componentwise bound for the rounded product: if each component of `a`
/// is within `ba` and each of `b` within `bb`, each component of the product
/// is within `2*ba*bb/2^p + 1`.
pub proof fn lemma_mul_comp(a: CVal, b: CVal, p: nat, ba: int, bb: int)
    requires
        p >= 1,
        0 <= ba,
        0 <= bb,
        abs_le(a, ba),
        abs_le(b, bb),
    ensures
        abs_le(c_mul_s(a, b, p), 2 * ba * bb / (pow2(p) as int) + 1),
{
    assert(-(2 * ba * bb) <= a.re * b.re - a.im * b.im <= 2 * ba * bb && -(2 * ba * bb) <= a.re
        * b.im + a.im * b.re <= 2 * ba * bb) by (nonlinear_arith)
        requires
            -ba <= a.re <= ba,
            -ba <= a.im <= ba,
            -bb <= b.re <= bb,
            -bb <= b.im <= bb,
            ba >= 0,
            bb >= 0;
    assert(2 * ba * bb >= 0) by (nonlinear_arith)
        requires ba >= 0, bb >= 0;
    lemma_rnd_le(a.re * b.re - a.im * b.im, p, 2 * ba * bb);
    lemma_rnd_le(a.re * b.im + a.im * b.re, p, 2 * ba * bb);
}

/// Powers of a twiddle factor as the butterfly computes them: a running
/// product that starts at the fixed-point unit and multiplies (with
/// rounding) by `w` once per step.
pub open spec fn wpow(w: CVal, j: nat, p: nat) -> CVal
    decreases j,
{
    if j == 0 {
        one_c(p)
    } else {
        c_mul_s(wpow(w, (j - 1) as nat, p), w, p)
    }
}

/// The running powers of a unit-magnitude twiddle factor stay bounded:
/// after `j` rounded multiplications the squared magnitude is at most
/// `(2^p + 2j)^2`, so each component is too.
pub proof fn lemma_wpow_bound(w: CVal, j: nat, p: nat)
    requires
        p >= 1,
        norm_sq(w) <= pow2(p) * pow2(p),
    ensures
        norm_sq(wpow(w, j, p)) <= (pow2(p) + 2 * j) * (pow2(p) + 2 * j),
        abs_le(wpow(w, j, p), pow2(p) as int + 2 * j),
    decreases j,
{
    lemma_pow2_pos(p);
    let d = pow2(p) as int;
    if j == 0 {
        assert(norm_sq(one_c(p)) == d * d);
        lemma_sq_le(d, d);
    } else {
        lemma_wpow_bound(w, (j - 1) as nat, p);
        let prev = wpow(w, (j - 1) as nat, p);
        let bprev = d + 2 * (j - 1);
        lemma_mul_norm(prev, w, p, bprev, d);
        // bprev * d is an exact multiple of d, so the division is exact.
        assert(bprev * d / d == bprev) by {
            lemma_fundamental_div_mod_converse(bprev * d, d, bprev, 0);
        }
        let cur = wpow(w, j, p);
        assert(norm_sq(cur) <= (bprev + 2) * (bprev + 2));
        assert(cur.re * cur.re <= norm_sq(cur) && cur.im * cur.im <= norm_sq(cur))
            by (nonlinear_arith);
        lemma_sq_le(cur.re, bprev + 2);
        lemma_sq_le(cur.im, bprev + 2);
    }
}

/// Computes `2^e`.
pub fn pow2_u128(e: u32) -> (r: u128)
    requires
        e <= 127,
    ensures
        r == pow2(e as nat),
{
    proof {
        lemma2_to64();
    }
    let mut r: u128 = 1;
    let mut i: u32 = 0;
    while i < e
        invariant
            i <= e <= 127,
            r == pow2(i as nat),
        decreases e - i,
    {
        proof {
            lemma_pow2_adds(i as nat, 1);
            lemma2_to64();
            if ((i + 1) as nat) < 127 {
                lemma_pow2_strictly_increases((i + 1) as nat, 127);
            }
            lemma_pow2_fits();
        }
        r = r * 2;
        i = i + 1;
    }
    r
}

/// Rounds `x / 2^p` to the nearest integer, ties away from zero.
pub fn rnd_exec(x: i128, prec: u32) -> (r: i128)
    requires
        1 <= prec <= 60,
        -pow2(125) <= x <= pow2(125),
    ensures
        r == rnd(x as int, prec as nat),
{
    let pw: u128 = pow2_u128(prec);
    let half_pw: u128 = pow2_u128(prec - 1);
    proof {
        lemma_pow2_pos(prec as nat);
        lemma_pow2_fits();
        if ((prec - 1) as nat) < 59 {
            lemma_pow2_strictly_increases((prec - 1) as nat, 59);
        }
        lemma_half_range(prec as nat);
    }
    if x >= 0 {
        let y: u128 = (x as u128) + half_pw;
        let q: u128 = y / pw;
        proof {
            vstd::arithmetic::div_mod::lemma_div_nonincreasing(y as int, pw as int);
        }
        q as i128
    } else {
        let y: u128 = ((-x) as u128) + half_pw;
        let q: u128 = y / pw;
        proof {
            vstd::arithmetic::div_mod::lemma_div_nonincreasing(y as int, pw as int);
        }
        -(q as i128)
    }
}

impl Cplx {
    /// The complex zero.
    pub fn zero() -> (r: Cplx)
        ensures
            r@ == (CVal { re: 0, im: 0 }),
    {
        Cplx { re: 0, im: 0 }
    }

    /// The fixed-point unit `1 + 0i` at `prec` fractional bits.
    pub fn one(prec: u32) -> (r: Cplx)
        requires
            prec <= 60,
        ensures
            r@ == one_c(prec as nat),
    {
        proof {
            lemma_pow2_fits();
            if (prec as nat) < 60 {
                lemma_pow2_strictly_increases(prec as nat, 60);
            }
        }
        let pw: u128 = pow2_u128(prec);
        Cplx { re: pw as i128, im: 0 }
    }

    /// Exact complex addition.
    pub fn add(self, other: Cplx) -> (r: Cplx)
        requires
            abs_le(self@, pow2(125) as int),
            abs_le(other@, pow2(125) as int),
        ensures
            r@ == c_add_s(self@, other@),
    {
        proof {
            lemma_pow2_fits();
        }
        Cplx { re: self.re + other.re, im: self.im + other.im }
    }

    /// Exact complex subtraction.
    pub fn sub(self, other: Cplx) -> (r: Cplx)
        requires
            abs_le(self@, pow2(125) as int),
            abs_le(other@, pow2(125) as int),
        ensures
            r@ == c_sub_s(self@, other@),
    {
        proof {
            lemma_pow2_fits();
        }
        Cplx { re: self.re - other.re, im: self.im - other.im }
    }

    /// Complex multiplication at `prec` fractional bits, rounding each
    /// component to the nearest representable value, ties away from zero.
    pub fn mul(self, other: Cplx, prec: u32) -> (r: Cplx)
        requires
            1 <= prec <= 60,
            abs_le(self@, pow2(62) as int),
            abs_le(other@, pow2(62) as int),
        ensures
            r@ == c_mul_s(self@, other@, prec as nat),
    {
        proof {
            lemma_pow2_fits();
            lemma_pow2_adds(62, 62);
            let b = pow2(62) as int;
            assert(-(b * b) <= self.re * other.re <= b * b && -(b * b) <= self.im * other.im <= b
                * b && -(b * b) <= self.re * other.im <= b * b && -(b * b) <= self.im * other.re
                <= b * b) by (nonlinear_arith)
                requires
                    -b <= self.re <= b,
                    -b <= self.im <= b,
                    -b <= other.re <= b,
                    -b <= other.im <= b,
                    b >= 0;
        }
        let re0: i128 = self.re * other.re - self.im * other.im;
        let im0: i128 = self.re * other.im + self.im * other.re;
        Cplx { re: rnd_exec(re0, prec), im: rnd_exec(im0, prec) }
    }
}

} // verus!
