//! The recursive radix-2 decimation-in-time transform.

use vstd::prelude::*;
use vstd::arithmetic::power2::pow2;
use vstd::arithmetic::div_mod::{lemma_div_is_ordered, lemma_fundamental_div_mod_converse};
use crate::complex::{
    abs_i, abs_le, c_add_s, c_mul_s, c_sub_s, lemma_mul_comp, lemma_pow2_fits, lemma_wpow_bound,
    norm_sq, wpow, CVal, Cplx,
};
use crate::roots::{is_pow2, twiddle_s, TwiddleCache};

verus! {

/// The error returned by a transform that never starts: the input is
/// checked once, at the top-level entry, before any recursion.
#[derive(Clone, Copy, Debug, PartialEq, Eq, Structural)]
pub enum FftError {
    /// The input length is zero or not a power of two.
    InvalidLength,
    /// The call asks for a different precision than the cache was created at.
    PrecisionMismatch,
}

/// The integer mantissas of a vector of samples.
pub open spec fn ints_of(s: Seq<i128>) -> Seq<int> {
    s.map_values(|x: i128| x as int)
}

/// The mathematical values of a vector of complex results.
pub open spec fn views_of(s: Seq<Cplx>) -> Seq<CVal> {
    s.map_values(|c: Cplx| c@)
}

/// Every element of `s` lies in `[-b, b]`.
pub open spec fn ints_bounded(s: Seq<int>, b: int) -> bool {
    forall|i: int| 0 <= i < s.len() ==> -b <= #[trigger] s[i] <= b
}

/// Both components of every element of `s` lie in `[-b, b]`.
pub open spec fn cseq_bounded(s: Seq<CVal>, b: int) -> bool {
    forall|i: int| 0 <= i < s.len() ==> abs_le(#[trigger] s[i], b)
}

/// The even-indexed subsequence: `even[i] = s[2i]`.
pub open spec fn even_ints(s: Seq<int>) -> Seq<int> {
    Seq::new(s.len() / 2, |i: int| s[2 * i])
}

/// The odd-indexed subsequence: `odd[i] = s[2i + 1]`.
pub open spec fn odd_ints(s: Seq<int>) -> Seq<int> {
    Seq::new(s.len() / 2, |i: int| s[2 * i + 1])
}

/// The butterfly combine: entry `k < m` is `e[k] + w^k * o[k]` and entry
/// `k + m` is `e[k] - w^k * o[k]`, with the running powers of `w` as the
/// loop computes them.
pub open spec fn combine_s(e: Seq<CVal>, o: Seq<CVal>, w: CVal, p: nat) -> Seq<CVal> {
    Seq::new(
        e.len() + o.len(),
        |k: int|
            if k < e.len() {
                c_add_s(e[k], c_mul_s(wpow(w, k as nat, p), o[k], p))
            } else {
                c_sub_s(e[k - e.len()], c_mul_s(wpow(w, (k - e.len()) as nat, p), o[k - e.len()], p))
            },
    )
}

/// The transform itself, as a mathematical function on mantissa sequences:
/// a length-one sequence is promoted to a complex value; otherwise the
/// even- and odd-indexed halves are transformed and combined by the
/// butterfly with the `n`-th root of unity.
pub open spec fn fft_s(s: Seq<int>, p: nat) -> Seq<CVal>
    decreases s.len(),
{
    if s.len() == 0 {
        Seq::empty()
    } else if s.len() == 1 {
        seq![CVal { re: s[0], im: 0 }]
    } else {
        combine_s(
            fft_s(even_ints(s), p),
            fft_s(odd_ints(s), p),
            twiddle_s(s.len() as nat, p),
            p,
        )
    }
}

/// The lengths whose twiddle factors one transform of length `n` needs:
/// `n, n/2, ..., 2`.
pub open spec fn req_len(n: nat, k: nat) -> bool
    decreases n,
{
    if n <= 1 {
        false
    } else {
        k == n || req_len(n / 2, k)
    }
}

/// The set of lengths whose twiddle factors a transform of length `n`
/// requests, as cache keys.
pub open spec fn req_set(n: nat) -> Set<u64> {
    Set::new(|k: u64| req_len(n, k as nat))
}

/// The largest absolute value of a mantissa in `s` (zero for an empty
/// sequence).
pub open spec fn max_abs(s: Seq<int>) -> int
    decreases s.len(),
{
    if s.len() == 0 {
        0
    } else {
        let rest = max_abs(s.drop_last());
        if abs_i(s.last()) > rest {
            abs_i(s.last())
        } else {
            rest
        }
    }
}

/// `max_abs` bounds every element.
pub proof fn lemma_max_abs(s: Seq<int>)
    ensures
        max_abs(s) >= 0,
        ints_bounded(s, max_abs(s)),
    decreases s.len(),
{
    if s.len() > 0 {
        lemma_max_abs(s.drop_last());
        assert forall|i: int| 0 <= i < s.len() implies -max_abs(s) <= #[trigger] s[i] <= max_abs(
            s,
        ) by {
            if i < s.len() - 1 {
                assert(s.drop_last()[i] == s[i]);
            }
        }
    }
}

/// `x / d <= y` whenever `x <= y * d`.
proof fn lemma_div_le(x: int, y: int, d: int)
    requires
        d > 0,
        0 <= x,
        x <= y * d,
    ensures
        x / d <= y,
{
    lemma_div_is_ordered(x, y * d, d);
    lemma_fundamental_div_mod_converse(y * d, d, y, 0);
}

/// Checks whether `n` is a power of two.
pub fn check_pow2(n: usize) -> (r: bool)
    ensures
        r == is_pow2(n as nat),
{
    if n == 0 {
        return false;
    }
    let mut m: usize = n;
    while m > 1 && m % 2 == 0
        invariant
            m >= 1,
            is_pow2(n as nat) == is_pow2(m as nat),
        decreases m,
    {
        m = m / 2;
    }
    m == 1
}

/// Splits a sequence into its even-indexed and odd-indexed subsequences,
/// preserving relative order; the two outputs are independent copies.
pub fn decimate(p: &Vec<i128>) -> (r: (Vec<i128>, Vec<i128>))
    requires
        p@.len() % 2 == 0,
    ensures
        ints_of(r.0@) == even_ints(ints_of(p@)),
        ints_of(r.1@) == odd_ints(ints_of(p@)),
        r.0@.len() == p@.len() / 2,
        r.1@.len() == p@.len() / 2,
{
    let n = p.len();
    let mut evens: Vec<i128> = Vec::new();
    let mut odds: Vec<i128> = Vec::new();
    let mut i: usize = 0;
    while i < n / 2
        invariant
            i <= n / 2,
            n == p@.len(),
            n % 2 == 0,
            evens@.len() == i,
            odds@.len() == i,
            forall|k: int| 0 <= k < i ==> evens@[k] == p@[2 * k],
            forall|k: int| 0 <= k < i ==> odds@[k] == p@[2 * k + 1],
        decreases n / 2 - i,
    {
        evens.push(p[2 * i]);
        odds.push(p[2 * i + 1]);
        i = i + 1;
    }
    proof {
        assert(ints_of(evens@) =~= even_ints(ints_of(p@)));
        assert(ints_of(odds@) =~= odd_ints(ints_of(p@)));
    }
    (evens, odds)
}

/// The recursive engine. The ghost bound `b` dominates every input
/// mantissa; the output is the exact fixed-point transform, with every
/// component within `n^2 * (b + 2) - 2`.
fn fft_rec(p: &Vec<i128>, prec: u32, cache: &mut TwiddleCache, Ghost(b): Ghost<int>) -> (r: Vec<
    Cplx,
>)
    requires
        is_pow2(p@.len() as nat),
        1 <= prec <= 60,
        4 * (p@.len() as int) <= pow2(prec as nat),
        0 <= b,
        ints_bounded(ints_of(p@), b),
        (p@.len() as int) * (p@.len() as int) * (b + 2) <= pow2(60),
        old(cache).wf(),
        old(cache).prec_spec() == prec,
    ensures
        views_of(r@) == fft_s(ints_of(p@), prec as nat),
        r@.len() == p@.len(),
        cseq_bounded(views_of(r@), (p@.len() as int) * (p@.len() as int) * (b + 2) - 2),
        final(cache).wf(),
        final(cache).prec_spec() == prec,
        final(cache).entries().dom() == old(cache).entries().dom().union(
            req_set(p@.len() as nat),
        ),
    decreases p@.len(),
{
    let n = p.len();
    let ghost s = ints_of(p@);
    let ghost pn = prec as nat;
    proof {
        lemma_pow2_fits();
        if (pn) < 60 {
            vstd::arithmetic::power2::lemma_pow2_strictly_increases(pn, 60);
        }
    }
    if n == 1 {
        let mut r: Vec<Cplx> = Vec::new();
        r.push(Cplx { re: p[0], im: 0 });
        proof {
            assert(views_of(r@) =~= fft_s(s, pn));
            assert(-b <= s[0] <= b);
            assert((p@.len() as int) * (p@.len() as int) * (b + 2) - 2 == b)
                by (nonlinear_arith)
                requires p@.len() == 1;
            assert forall|i: int| 0 <= i < views_of(r@).len() implies abs_le(
                #[trigger] views_of(r@)[i],
                (p@.len() as int) * (p@.len() as int) * (b + 2) - 2,
            ) by {
                assert(views_of(r@)[0] == r@[0]@);
                assert(r@[0]@ == CVal { re: s[0], im: 0 });
            }
            assert(cache.entries().dom() =~= old(cache).entries().dom().union(req_set(1)));
        }
        return r;
    }
    // n >= 2 and a power of two, so n is even and n/2 is a power of two.
    assert(n % 2 == 0 && is_pow2((n / 2) as nat) && n / 2 >= 1);
    let w = cache.get_twiddle(n as u64);
    let ghost entries0 = old(cache).entries();
    let ghost entries1 = cache.entries();
    let (evens, odds) = decimate(p);
    let ghost half_bound = ((n / 2) as int) * ((n / 2) as int) * (b + 2) - 2;
    proof {
        assert(((n / 2) as int) * ((n / 2) as int) * (b + 2) <= (n as int) * (n as int) * (b + 2))
            by (nonlinear_arith)
            requires n >= 2, b >= 0;
        assert(((n / 2) as int) * ((n / 2) as int) * (b + 2) >= b + 2) by (nonlinear_arith)
            requires (n / 2) as int >= 1, b >= 0;
        assert forall|i: int| 0 <= i < even_ints(s).len() implies -b <= #[trigger] even_ints(s)[i]
            <= b by {
            assert(even_ints(s)[i] == s[2 * i]);
        }
        assert forall|i: int| 0 <= i < odd_ints(s).len() implies -b <= #[trigger] odd_ints(s)[i]
            <= b by {
            assert(odd_ints(s)[i] == s[2 * i + 1]);
        }
    }
    let y_even = fft_rec(&evens, prec, cache, Ghost(b));
    let ghost entries2 = cache.entries();
    proof {
        assert(evens@.len() == (n as nat) / 2);
        assert(entries2.dom() == entries1.dom().union(req_set((n as nat) / 2)));
    }
    let y_odd = fft_rec(&odds, prec, cache, Ghost(b));
    let ghost entries3 = cache.entries();
    proof {
        assert(entries3.dom() == entries2.dom().union(req_set((n as nat) / 2)));
    }
    let ghost target = fft_s(s, pn);
    let ghost d = pow2(pn) as int;
    proof {
        assert(target == combine_s(views_of(y_even@), views_of(y_odd@), twiddle_s(n as nat, pn), pn));
    }
    let half_n = n / 2;
    let mut adds: Vec<Cplx> = Vec::new();
    let mut subs: Vec<Cplx> = Vec::new();
    let mut wc = Cplx::one(prec);
    let ghost full_bound = (n as int) * (n as int) * (b + 2) - 2;
    let mut j: usize = 0;
    while j < half_n
        invariant
            j <= half_n,
            half_n == n / 2,
            n == 2 * half_n,
            n == p@.len(),
            1 <= prec <= 60,
            4 * (n as int) <= pow2(prec as nat),
            0 <= b,
            (n as int) * (n as int) * (b + 2) <= pow2(60),
            pn == prec as nat,
            d == pow2(pn) as int,
            d <= pow2(60),
            s == ints_of(p@),
            w@ == twiddle_s(n as nat, pn),
            norm_sq(w@) <= pow2(pn) * pow2(pn),
            abs_le(w@, d),
            target == fft_s(s, pn),
            target == combine_s(views_of(y_even@), views_of(y_odd@), w@, pn),
            y_even@.len() == half_n,
            y_odd@.len() == half_n,
            cseq_bounded(views_of(y_even@), half_bound),
            cseq_bounded(views_of(y_odd@), half_bound),
            half_bound == ((n / 2) as int) * ((n / 2) as int) * (b + 2) - 2,
            full_bound == (n as int) * (n as int) * (b + 2) - 2,
            0 <= half_bound,
            wc@ == wpow(w@, j as nat, pn),
            adds@.len() == j,
            subs@.len() == j,
            forall|k: int| 0 <= k < j ==> #[trigger] adds@[k]@ == target[k],
            forall|k: int| 0 <= k < j ==> #[trigger] subs@[k]@ == target[k + half_n],
            forall|k: int| 0 <= k < j ==> abs_le(#[trigger] adds@[k]@, full_bound),
            forall|k: int| 0 <= k < j ==> abs_le(#[trigger] subs@[k]@, full_bound),
        decreases half_n - j,
    {
        proof {
            lemma_pow2_fits();
            if (pn) < 60 {
                vstd::arithmetic::power2::lemma_pow2_strictly_increases(pn, 60);
            }
            lemma_wpow_bound(w@, j as nat, pn);
            // wc components are within 2^p + 2j <= 2^p + n <= 2^62.
            assert(2 * (j as int) <= n as int);
            let wb = d + n as int;
            assert(abs_le(wc@, wb));
            let dh = half_bound;
            assert(views_of(y_odd@)[j as int] == y_odd@[j as int]@);
            assert(views_of(y_even@)[j as int] == y_even@[j as int]@);
            assert(abs_le(y_odd@[j as int]@, dh));
            assert(abs_le(y_even@[j as int]@, dh));
            lemma_mul_comp(wc@, y_odd@[j as int]@, pn, wb, dh);
            // 2 * wb * dh <= 3 * dh * d since 4n <= 2^p.
            assert(2 * wb * dh <= (3 * dh) * d) by (nonlinear_arith)
                requires
                    wb == d + n as int,
                    4 * (n as int) <= d,
                    dh >= 0,
                    d > 0,
                    n >= 2;
            assert(2 * wb * dh >= 0) by (nonlinear_arith)
                requires wb >= 0, dh >= 0;
            lemma_div_le(2 * wb * dh, 3 * dh, d);
            assert(abs_le(c_mul_s(wc@, y_odd@[j as int]@, pn), 3 * dh + 1));
            // The butterfly outputs stay within the full bound.
            assert(dh + (3 * dh + 1) <= full_bound) by (nonlinear_arith)
                requires
                    dh == ((n / 2) as int) * ((n / 2) as int) * (b + 2) - 2,
                    full_bound == (n as int) * (n as int) * (b + 2) - 2,
                    n == 2 * (n / 2),
                    n >= 2,
                    b >= 0;
        }
        let t = wc.mul(y_odd[j], prec);
        let a = y_even[j].add(t);
        let su = y_even[j].sub(t);
        adds.push(a);
        subs.push(su);
        let ghost old_j = j as nat;
        wc = wc.mul(w, prec);
        proof {
            assert(wpow(w@, (old_j + 1) as nat, pn) == c_mul_s(wpow(w@, old_j, pn), w@, pn));
            assert(adds@[j as int]@ == target[j as int]);
            assert(subs@[j as int]@ == target[j as int + half_n]);
        }
        j = j + 1;
    }
    let mut y = adds;
    let mut k: usize = 0;
    while k < half_n
        invariant
            k <= half_n,
            subs@.len() == half_n,
            y@.len() == half_n + k,
            target.len() == n,
            n == 2 * half_n,
            forall|i: int| 0 <= i < y@.len() ==> #[trigger] y@[i]@ == target[i],
            forall|i: int| 0 <= i < half_n ==> #[trigger] subs@[i]@ == target[i + half_n],
            forall|i: int| 0 <= i < half_n ==> abs_le(#[trigger] subs@[i]@, full_bound),
            forall|i: int| 0 <= i < y@.len() ==> abs_le(#[trigger] y@[i]@, full_bound),
        decreases half_n - k,
    {
        y.push(subs[k]);
        k = k + 1;
    }
    proof {
        assert forall|i: int| 0 <= i < views_of(y@).len() implies #[trigger] views_of(y@)[i]
            == target[i] by {
            assert(views_of(y@)[i] == y@[i]@);
        }
        assert(views_of(y@) =~= target);
        assert forall|i: int| 0 <= i < views_of(y@).len() implies abs_le(
            #[trigger] views_of(y@)[i],
            full_bound,
        ) by {
            assert(views_of(y@)[i] == y@[i]@);
        }
        // The cache now holds exactly the old entries plus the lengths this
        // level and the two half-length transforms needed.
        assert(cache.entries() == entries3);
        assert(entries1.dom() =~= entries0.dom().insert(n as u64));
        assert forall|k2: u64| #[trigger]
            entries3.dom().contains(k2) == (entries0.dom().contains(k2) || req_len(
                n as nat,
                k2 as nat,
            )) by {
            assert(req_len(n as nat, k2 as nat) == ((k2 as nat) == (n as nat) || req_len(
                (n as nat) / 2,
                k2 as nat,
            )));
        }
        assert(cache.entries().dom() =~= entries0.dom().union(req_set(n as nat)));
    }
    y
}

/// The transform: `fft(samples, prec, cache)` returns the discrete Fourier
/// spectrum of `samples` (mantissas scaled by `2^prec`), or rejects the
/// call before any work if the length is not a power of two or the cache
/// was created at a different precision.
pub fn fft(p: &Vec<i128>, prec: u32, cache: &mut TwiddleCache) -> (r: Result<Vec<Cplx>, FftError>)
    requires
        1 <= prec <= 60,
        4 * (p@.len() as int) <= pow2(prec as nat),
        (p@.len() as int) * (p@.len() as int) * (max_abs(ints_of(p@)) + 2) <= pow2(60),
        old(cache).wf(),
    ensures
        final(cache).wf(),
        final(cache).prec_spec() == old(cache).prec_spec(),
        r matches Err(FftError::InvalidLength) <==> !is_pow2(p@.len() as nat),
        r matches Err(FftError::PrecisionMismatch) <==> is_pow2(p@.len() as nat) && prec != old(
            cache,
        ).prec_spec(),
        r matches Err(_) ==> *final(cache) == *old(cache),
        r matches Ok(v) ==> {
            &&& views_of(v@) == fft_s(ints_of(p@), prec as nat)
            &&& v@.len() == p@.len()
            &&& final(cache).entries().dom() == old(cache).entries().dom().union(
                req_set(p@.len() as nat),
            )
        },
{
    if !check_pow2(p.len()) {
        return Err(FftError::InvalidLength);
    }
    if prec != cache.precision() {
        return Err(FftError::PrecisionMismatch);
    }
    proof {
        lemma_max_abs(ints_of(p@));
    }
    Ok(fft_rec(p, prec, cache, Ghost(max_abs(ints_of(p@)))))
}

} // verus!
