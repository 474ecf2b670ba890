//! Roots of unity ("twiddle factors") and the memoized cache of them.
//!
//! The primitive `n`-th root of unity `e^(2*pi*i/n)` for a power-of-two `n`
//! is computed exactly over fixed-point integers by the half-angle
//! recursion: `e^(2*pi*i/2) = -1`, and each doubling of `n` halves the
//! angle, with `cos(t/2) = sqrt((1+cos(t))/2)` and
//! `sin(t/2) = sqrt((1-cos(t))/2)` (both non-negative for angles in the
//! upper half plane). The square root is a verified integer square root.

use vstd::prelude::*;
use vstd::arithmetic::power2::pow2;
use vstd::arithmetic::div_mod::{lemma_fundamental_div_mod, lemma_fundamental_div_mod_converse};
use std::collections::HashMap;
use crate::complex::{
    abs_le, lemma_pow2_fits, lemma_sq_le, norm_sq, pow2_u128, CVal, Cplx,
};

verus! {

broadcast use vstd::std_specs::hash::group_hash_axioms;

/// `n` is a power of two.
pub open spec fn is_pow2(n: nat) -> bool
    decreases n,
{
    if n == 0 {
        false
    } else if n == 1 {
        true
    } else {
        n % 2 == 0 && is_pow2(n / 2)
    }
}

/// The integer square root: the largest `r` with `r * r <= x`.
pub open spec fn isqrt_s(x: int) -> int
    decreases x,
{
    if x <= 0 {
        0
    } else {
        let r = isqrt_s(x - 1);
        if (r + 1) * (r + 1) <= x {
            r + 1
        } else {
            r
        }
    }
}

/// The defining property of the integer square root.
pub proof fn lemma_isqrt(x: int)
    requires
        x >= 0,
    ensures
        isqrt_s(x) >= 0,
        isqrt_s(x) * isqrt_s(x) <= x,
        x < (isqrt_s(x) + 1) * (isqrt_s(x) + 1),
    decreases x,
{
    if x == 0 {
    } else {
        lemma_isqrt(x - 1);
        let r = isqrt_s(x - 1);
        if (r + 1) * (r + 1) <= x {
            assert(x < ((r + 1) + 1) * ((r + 1) + 1)) by (nonlinear_arith)
                requires x - 1 < (r + 1) * (r + 1), r >= 0;
        }
    }
}

/// The integer square root is unique: any `r` with `r*r <= x < (r+1)^2`
/// equals `isqrt_s(x)`.
pub proof fn lemma_isqrt_unique(x: int, r: int)
    requires
        x >= 0,
        r >= 0,
        r * r <= x,
        x < (r + 1) * (r + 1),
    ensures
        r == isqrt_s(x),
{
    lemma_isqrt(x);
    let q = isqrt_s(x);
    assert(r == q) by (nonlinear_arith)
        requires
            r >= 0,
            q >= 0,
            r * r <= x,
            x < (r + 1) * (r + 1),
            q * q <= x,
            x < (q + 1) * (q + 1);
}

/// The fixed-point primitive `n`-th root of unity at `p` fractional bits,
/// defined by the half-angle recursion from `e^(pi*i) = -1`.
pub open spec fn twiddle_s(n: nat, p: nat) -> CVal
    decreases n,
{
    if n <= 2 {
        CVal { re: -(pow2(p) as int), im: 0 }
    } else {
        let parent = twiddle_s(n / 2, p);
        CVal {
            re: isqrt_s(((pow2(p) as int + parent.re) / 2) * pow2(p)),
            im: isqrt_s(((pow2(p) as int - parent.re) / 2) * pow2(p)),
        }
    }
}

/// Every twiddle factor has both components within the fixed-point unit
/// and squared magnitude within `5 * 2^p` below `4^p`: it has magnitude 1
/// up to a few units in the last place, at every length.
pub proof fn lemma_twiddle_bounds(n: nat, p: nat)
    requires
        p >= 1,
    ensures
        abs_le(twiddle_s(n, p), pow2(p) as int),
        norm_sq(twiddle_s(n, p)) <= pow2(p) * pow2(p),
        norm_sq(twiddle_s(n, p)) >= pow2(p) * pow2(p) - 5 * pow2(p),
    decreases n,
{
    let d = pow2(p) as int;
    vstd::arithmetic::power2::lemma_pow2_pos(p);
    if n <= 2 {
        assert(norm_sq(twiddle_s(n, p)) == d * d) by (nonlinear_arith)
            requires twiddle_s(n, p).re == -d, twiddle_s(n, p).im == 0;
    } else {
        lemma_twiddle_bounds(n / 2, p);
        let parent = twiddle_s(n / 2, p);
        let hp = (d + parent.re) / 2;
        let hm = (d - parent.re) / 2;
        lemma_fundamental_div_mod(d + parent.re, 2);
        lemma_fundamental_div_mod(d - parent.re, 2);
        assert(0 <= hp && 0 <= hm && hp + hm <= d);
        assert(hp * d <= d * d && hm * d <= d * d) by (nonlinear_arith)
            requires 0 <= hp <= d, 0 <= hm <= d, d > 0;
        assert(hp * d >= 0 && hm * d >= 0) by (nonlinear_arith)
            requires hp >= 0, hm >= 0, d > 0;
        lemma_isqrt(hp * d);
        lemma_isqrt(hm * d);
        let re = isqrt_s(hp * d);
        let im = isqrt_s(hm * d);
        assert(re * re <= d * d && im * im <= d * d);
        lemma_sq_le(re, d);
        lemma_sq_le(im, d);
        assert(re * re + im * im <= (hp + hm) * d) by (nonlinear_arith)
            requires re * re <= hp * d, im * im <= hm * d;
        assert((hp + hm) * d <= d * d) by (nonlinear_arith)
            requires hp + hm <= d, d > 0;
        // Lower bound: each floor division by 2 loses at most half a unit,
        // and each integer square root at most one unit of the root.
        assert(2 * hp + 2 * hm >= 2 * d - 2);
        assert(re * re >= hp * d - 2 * d) by (nonlinear_arith)
            requires hp * d < (re + 1) * (re + 1), 0 <= re <= d;
        assert(im * im >= hm * d - 2 * d) by (nonlinear_arith)
            requires hm * d < (im + 1) * (im + 1), 0 <= im <= d;
        assert(re * re + im * im >= d * d - 5 * d) by (nonlinear_arith)
            requires
                re * re >= hp * d - 2 * d,
                im * im >= hm * d - 2 * d,
                2 * hp + 2 * hm >= 2 * d - 2,
                d > 0;
    }
}

/// Computes the integer square root by binary search.
pub fn isqrt_u128(x: u128) -> (r: u128)
    requires
        x < pow2(126),
    ensures
        r == isqrt_s(x as int),
{
    proof {
        lemma_pow2_fits();
    }
    let mut lo: u128 = 0;
    let mut hi: u128 = 0x8000000000000000;
    proof {
        assert((hi * hi) as int == pow2(126)) by (nonlinear_arith)
            requires hi == 0x8000000000000000, pow2(126) == 0x40000000000000000000000000000000;
    }
    while lo + 1 < hi
        invariant
            lo < hi <= 0x8000000000000000,
            lo * lo <= x,
            x < hi * hi,
        decreases hi - lo,
    {
        let mid: u128 = lo + (hi - lo) / 2;
        assert(lo < mid < hi);
        proof {
            assert(mid * mid <= 0x40000000000000000000000000000000) by (nonlinear_arith)
                requires mid <= 0x8000000000000000;
        }
        if mid * mid <= x {
            lo = mid;
        } else {
            hi = mid;
        }
    }
    proof {
        assert(x < (lo + 1) * (lo + 1));
        lemma_isqrt_unique(x as int, lo as int);
    }
    lo
}

/// Computes the fixed-point primitive `n`-th root of unity for a
/// power-of-two `n >= 2` at `prec` fractional bits.
pub fn compute_twiddle(n: u64, prec: u32) -> (r: Cplx)
    requires
        n >= 2,
        is_pow2(n as nat),
        1 <= prec <= 60,
    ensures
        r@ == twiddle_s(n as nat, prec as nat),
        abs_le(r@, pow2(prec as nat) as int),
        norm_sq(r@) <= pow2(prec as nat) * pow2(prec as nat),
    decreases n,
{
    proof {
        lemma_pow2_fits();
        if (prec as nat) < 60 {
            vstd::arithmetic::power2::lemma_pow2_strictly_increases(prec as nat, 60);
        }
        lemma_twiddle_bounds(n as nat, prec as nat);
    }
    let pw_u: u128 = pow2_u128(prec);
    let pw: i128 = pw_u as i128;
    if n == 2 {
        Cplx { re: -pw, im: 0 }
    } else {
        let parent = compute_twiddle(n / 2, prec);
        proof {
            lemma_twiddle_bounds((n / 2) as nat, prec as nat);
            lemma_fundamental_div_mod(pw + parent.re, 2);
            lemma_fundamental_div_mod(pw - parent.re, 2);
        }
        let hp_u: u128 = ((pw + parent.re) as u128) / 2;
        let hm_u: u128 = ((pw - parent.re) as u128) / 2;
        proof {
            assert(hp_u * pw_u < pow2(126) && hm_u * pw_u < pow2(126)) by (nonlinear_arith)
                requires
                    hp_u <= pw_u,
                    hm_u <= pw_u,
                    pw_u == pow2(60 as nat) || pw_u < pow2(60 as nat),
                    pow2(60 as nat) == 0x1000000000000000,
                    pow2(126) == 0x40000000000000000000000000000000;
        }
        let re_u: u128 = isqrt_u128(hp_u * pw_u);
        let im_u: u128 = isqrt_u128(hm_u * pw_u);
        proof {
            let d = pow2(prec as nat) as int;
            let hp = (d + twiddle_s((n / 2) as nat, prec as nat).re) / 2;
            let hm = (d - twiddle_s((n / 2) as nat, prec as nat).re) / 2;
            assert(hp_u as int == hp && hm_u as int == hm);
            assert((hp_u * pw_u) as int == hp * d && (hm_u * pw_u) as int == hm * d)
                by (nonlinear_arith)
                requires hp_u as int == hp, hm_u as int == hm, pw_u as int == d;
            lemma_isqrt(hp * d);
            lemma_isqrt(hm * d);
            assert(hp * d <= d * d && hm * d <= d * d) by (nonlinear_arith)
                requires 0 <= hp <= d, 0 <= hm <= d;
            lemma_sq_le(isqrt_s(hp * d), d);
            lemma_sq_le(isqrt_s(hm * d), d);
        }
        Cplx { re: re_u as i128, im: im_u as i128 }
    }
}

/// The memoized table of twiddle factors, shared across the recursion of a
/// transform and across repeated transforms. All entries are computed at
/// the one precision fixed when the cache is created.
pub struct TwiddleCache {
    prec: u32,
    table: HashMap<u64, Cplx>,
}

impl TwiddleCache {
    /// The precision (number of fractional bits) this cache was created at.
    pub closed spec fn prec_spec(&self) -> u32 {
        self.prec
    }

    /// The mathematical contents of the cache: which lengths have been
    /// requested, and the root stored for each.
    pub closed spec fn entries(&self) -> Map<u64, CVal> {
        self.table@.map_values(|c: Cplx| c@)
    }

    /// Cache invariant: a sane precision, and every entry is exactly the
    /// fixed-point root of unity for its length at that precision.
    pub closed spec fn wf(&self) -> bool {
        &&& 1 <= self.prec <= 60
        &&& forall|k: u64|
            self.table@.dom().contains(k) ==> #[trigger] self.table@[k]@ == twiddle_s(
                k as nat,
                self.prec as nat,
            )
    }

    /// Entries of a well-formed cache are the roots of unity.
    pub proof fn lemma_wf_entries(&self, k: u64)
        requires
            self.wf(),
            self.entries().dom().contains(k),
        ensures
            self.entries()[k] == twiddle_s(k as nat, self.prec_spec() as nat),
    {
    }

    /// Creates an empty cache that will compute at `prec` fractional bits.
    pub fn new(prec: u32) -> (r: TwiddleCache)
        requires
            1 <= prec <= 60,
        ensures
            r.wf(),
            r.prec_spec() == prec,
            r.entries() == Map::<u64, CVal>::empty(),
    {
        let r = TwiddleCache { prec, table: HashMap::new() };
        proof {
            assert(r.entries() =~= Map::<u64, CVal>::empty());
        }
        r
    }

    /// The precision this cache computes at.
    pub fn precision(&self) -> (r: u32)
        ensures
            r == self.prec_spec(),
    {
        self.prec
    }

    /// How many distinct lengths have been requested so far.
    pub fn len(&self) -> (r: usize)
        requires
            self.wf(),
        ensures
            r == self.entries().dom().len(),
    {
        proof {
            assert(self.entries().dom() =~= self.table@.dom());
        }
        self.table.len()
    }

    /// Returns the primitive `n`-th root of unity for this cache's
    /// precision: the stored value if `n` was seen before (no recomputation),
    /// else computing it once and storing it under `n`.
    pub fn get_twiddle(&mut self, n: u64) -> (r: Cplx)
        requires
            old(self).wf(),
            n >= 2,
            is_pow2(n as nat),
        ensures
            final(self).wf(),
            final(self).prec_spec() == old(self).prec_spec(),
            r@ == twiddle_s(n as nat, old(self).prec_spec() as nat),
            abs_le(r@, pow2(old(self).prec_spec() as nat) as int),
            norm_sq(r@) <= pow2(old(self).prec_spec() as nat) * pow2(
                old(self).prec_spec() as nat,
            ),
            final(self).entries() == old(self).entries().insert(
                n,
                twiddle_s(n as nat, old(self).prec_spec() as nat),
            ),
    {
        let r = match self.table.get(&n) {
            Some(c) => *c,
            None => {
                let w = compute_twiddle(n, self.prec);
                self.table.insert(n, w);
                w
            },
        };
        proof {
            lemma_twiddle_bounds(n as nat, self.prec as nat);
            assert(self.entries() =~= old(self).entries().insert(
                n,
                twiddle_s(n as nat, old(self).prec_spec() as nat),
            ));
        }
        r
    }
}

} // verus!
