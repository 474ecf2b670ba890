use fft::complex::Cplx;
use fft::TwiddleCache;

#[test]
fn unit_times_value_is_exact() {
    let one = Cplx::one(32);
    let v = Cplx { re: 5 << 32, im: -(3 << 32) };
    let r = one.mul(v, 32);
    assert_eq!(r, v);
}

#[test]
fn add_sub_are_exact() {
    let a = Cplx { re: 7, im: -2 };
    let b = Cplx { re: 5, im: 9 };
    assert_eq!(a.add(b), Cplx { re: 12, im: 7 });
    assert_eq!(a.sub(b), Cplx { re: 2, im: -11 });
}

#[test]
fn twiddle_for_length_two_is_minus_one() {
    let mut cache = TwiddleCache::new(32);
    let w = cache.get_twiddle(2);
    assert_eq!(w, Cplx { re: -(1 << 32), im: 0 });
}

#[test]
fn twiddle_for_length_four_is_i() {
    let mut cache = TwiddleCache::new(32);
    let w = cache.get_twiddle(4);
    assert_eq!(w, Cplx { re: 0, im: 1 << 32 });
}

#[test]
fn twiddle_magnitude_is_one_within_tolerance() {
    let mut cache = TwiddleCache::new(32);
    for k in [2u64, 4, 8, 16, 32, 64] {
        let w = cache.get_twiddle(k);
        let norm = w.re * w.re + w.im * w.im;
        let unit = (1i128 << 64) as i128;
        assert!(norm <= unit);
        assert!(norm >= unit - (6i128 << 32) - 2);
    }
}

#[test]
fn cache_memoizes_one_entry_per_length() {
    let mut cache = TwiddleCache::new(32);
    let w1 = cache.get_twiddle(8);
    assert_eq!(cache.len(), 1);
    let w2 = cache.get_twiddle(8);
    assert_eq!(cache.len(), 1);
    assert_eq!(w1, w2);
    cache.get_twiddle(4);
    assert_eq!(cache.len(), 2);
}

#[test]
fn cache_precision_is_fixed_at_creation() {
    let cache = TwiddleCache::new(53);
    assert_eq!(cache.precision(), 53);
}
