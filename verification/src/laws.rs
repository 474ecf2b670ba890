//! Library-wide laws of the transform, stated and proved over the same
//! spec functions that the executable contracts use.

use vstd::prelude::*;
use crate::complex::{
    c_add_s, c_mul_s, c_neg_s, c_sub_s, lemma_mul_neg, lemma_mul_one, one_c, wpow, CVal,
};
use crate::engine::{combine_s, even_ints, fft_s, odd_ints, req_set};
use crate::roots::{is_pow2, twiddle_s, TwiddleCache};

verus! {

/// A one-sample transform is the sample promoted to a complex value with
/// zero imaginary part.
pub proof fn lemma_transform_single(x: int, p: nat)
    ensures
        fft_s(seq![x], p) == seq![CVal { re: x, im: 0 }],
{
    assert(fft_s(seq![x], p) =~= seq![CVal { re: x, im: 0 }]);
}

/// A two-sample transform is exactly `[a + b, a - b]` (as complex values
/// with zero imaginary part): the only twiddle power used is the unit, and
/// multiplying by the unit is exact.
pub proof fn lemma_transform_pair(a: int, b: int, p: nat)
    requires
        p >= 1,
    ensures
        fft_s(seq![a, b], p) == seq![CVal { re: a + b, im: 0 }, CVal { re: a - b, im: 0 }],
{
    let s = seq![a, b];
    assert(even_ints(s) =~= seq![a]);
    assert(odd_ints(s) =~= seq![b]);
    lemma_transform_single(a, p);
    lemma_transform_single(b, p);
    let w = twiddle_s(2, p);
    assert(wpow(w, 0, p) == one_c(p));
    lemma_mul_one(CVal { re: b, im: 0 }, p);
    assert(fft_s(s, p)[0] == c_add_s(CVal { re: a, im: 0 }, CVal { re: b, im: 0 }));
    assert(fft_s(s, p)[1] == c_sub_s(CVal { re: a, im: 0 }, CVal { re: b, im: 0 }));
    assert(fft_s(s, p) =~= seq![CVal { re: a + b, im: 0 }, CVal { re: a - b, im: 0 }]);
}

/// Length preservation: for every power-of-two input length the spectrum
/// has exactly the length of the input.
pub proof fn lemma_transform_len(s: Seq<int>, p: nat)
    requires
        is_pow2(s.len()),
    ensures
        fft_s(s, p).len() == s.len(),
    decreases s.len(),
{
    if s.len() >= 2 {
        assert(s.len() % 2 == 0 && is_pow2(s.len() / 2));
        lemma_transform_len(even_ints(s), p);
        lemma_transform_len(odd_ints(s), p);
    }
}

/// The sum of a sequence of mantissas.
pub open spec fn sum_ints(s: Seq<int>) -> int
    decreases s.len(),
{
    if s.len() == 0 {
        0
    } else {
        s[0] + sum_ints(s.drop_first())
    }
}

/// Elementwise negation of a sequence of mantissas.
pub open spec fn neg_ints(s: Seq<int>) -> Seq<int> {
    Seq::new(s.len(), |i: int| -s[i])
}

/// Elementwise complex negation of a spectrum.
pub open spec fn cneg_seq(v: Seq<CVal>) -> Seq<CVal> {
    Seq::new(v.len(), |i: int| c_neg_s(v[i]))
}

/// Prepending one element adds it to the sum.
proof fn lemma_sum_cons(x: int, u: Seq<int>)
    ensures
        sum_ints(seq![x] + u) == x + sum_ints(u),
{
    let v = seq![x] + u;
    assert(v.len() == u.len() + 1);
    assert(v[0] == x);
    assert(v.drop_first() =~= u);
}

/// Interleaving: the sum of an even-length sequence is the sum of its
/// even-indexed entries plus the sum of its odd-indexed entries.
pub proof fn lemma_sum_split(s: Seq<int>)
    requires
        s.len() % 2 == 0,
    ensures
        sum_ints(even_ints(s)) + sum_ints(odd_ints(s)) == sum_ints(s),
    decreases s.len(),
{
    if s.len() == 0 {
        assert(even_ints(s) =~= Seq::<int>::empty());
        assert(odd_ints(s) =~= Seq::<int>::empty());
    } else {
        let t = s.skip(2);
        lemma_sum_split(t);
        assert(even_ints(s) =~= seq![s[0]] + even_ints(t));
        assert(odd_ints(s) =~= seq![s[1]] + odd_ints(t));
        lemma_sum_cons(s[0], even_ints(t));
        lemma_sum_cons(s[1], odd_ints(t));
        assert(s.drop_first().drop_first() =~= t);
        assert(sum_ints(s) == s[0] + sum_ints(s.drop_first()));
        assert(sum_ints(s.drop_first()) == s[1] + sum_ints(t));
    }
}

/// The DC component: bin 0 of the spectrum is exactly the sum of the
/// samples, with zero imaginary part. Only the unit power of the twiddle
/// factor touches bin 0, and multiplying by the unit is exact, so no
/// rounding enters this bin.
pub proof fn lemma_transform_dc(s: Seq<int>, p: nat)
    requires
        p >= 1,
        is_pow2(s.len()),
    ensures
        fft_s(s, p)[0] == (CVal { re: sum_ints(s), im: 0 }),
    decreases s.len(),
{
    if s.len() == 1 {
        assert(s.drop_first() =~= Seq::<int>::empty());
        assert(sum_ints(s.drop_first()) == 0);
        assert(sum_ints(s) == s[0]);
        assert(fft_s(s, p)[0] == (CVal { re: s[0], im: 0 }));
    } else {
        assert(s.len() % 2 == 0 && is_pow2(s.len() / 2));
        lemma_transform_dc(even_ints(s), p);
        lemma_transform_dc(odd_ints(s), p);
        lemma_transform_len(even_ints(s), p);
        lemma_transform_len(odd_ints(s), p);
        lemma_sum_split(s);
        let e0 = fft_s(even_ints(s), p)[0];
        let o0 = fft_s(odd_ints(s), p)[0];
        let w = twiddle_s(s.len() as nat, p);
        assert(wpow(w, 0, p) == one_c(p));
        lemma_mul_one(o0, p);
        assert(fft_s(s, p)[0] == c_add_s(e0, o0));
        assert(c_add_s(e0, o0) == (CVal { re: sum_ints(s), im: 0 }));
    }
}

/// The provable part of linearity: scaling by -1 commutes with the
/// transform exactly, because rounding is ties-away-from-zero and hence an
/// odd function. (General scalars do not commute exactly: rounding inside
/// the butterfly does not distribute over sums or products.)
pub proof fn lemma_transform_negate(s: Seq<int>, p: nat)
    requires
        p >= 1,
        is_pow2(s.len()),
    ensures
        fft_s(neg_ints(s), p) == cneg_seq(fft_s(s, p)),
    decreases s.len(),
{
    let ns = neg_ints(s);
    if s.len() == 1 {
        assert(fft_s(ns, p) =~= cneg_seq(fft_s(s, p)));
    } else {
        assert(s.len() % 2 == 0 && is_pow2(s.len() / 2));
        assert(even_ints(ns) =~= neg_ints(even_ints(s)));
        assert(odd_ints(ns) =~= neg_ints(odd_ints(s)));
        lemma_transform_negate(even_ints(s), p);
        lemma_transform_negate(odd_ints(s), p);
        lemma_transform_len(even_ints(s), p);
        lemma_transform_len(odd_ints(s), p);
        let e = fft_s(even_ints(s), p);
        let o = fft_s(odd_ints(s), p);
        let w = twiddle_s(s.len() as nat, p);
        let m = e.len() as int;
        assert(fft_s(ns, p) == combine_s(cneg_seq(e), cneg_seq(o), w, p));
        assert forall|k: int| 0 <= k < fft_s(ns, p).len() implies #[trigger] fft_s(ns, p)[k]
            == c_neg_s(fft_s(s, p)[k]) by {
            if k < m {
                lemma_mul_neg(wpow(w, k as nat, p), o[k], p);
            } else {
                lemma_mul_neg(wpow(w, (k - m) as nat, p), o[k - m], p);
            }
        }
        assert(fft_s(ns, p) =~= cneg_seq(fft_s(s, p)));
    }
}

/// Idempotent cache reuse: a transform whose lengths are all already in
/// the cache leaves the cache exactly as it was - same keys, same stored
/// roots, nothing recomputed. The hypotheses are what `fft` ensures of the
/// cache it returns.
pub proof fn lemma_cache_reuse(c0: &TwiddleCache, c1: &TwiddleCache, n: nat)
    requires
        c0.wf(),
        c1.wf(),
        c0.prec_spec() == c1.prec_spec(),
        c1.entries().dom() == c0.entries().dom().union(req_set(n)),
        req_set(n).subset_of(c0.entries().dom()),
    ensures
        c1.entries() == c0.entries(),
{
    assert(c1.entries().dom() =~= c0.entries().dom());
    assert forall|k: u64| c1.entries().dom().contains(k) implies #[trigger] c1.entries()[k]
        == c0.entries()[k] by {
        c0.lemma_wf_entries(k);
        c1.lemma_wf_entries(k);
    }
    assert(c1.entries() =~= c0.entries());
}

} // verus!
