use fft::complex::Cplx;
use fft::engine::FftError;
use fft::{decimate, fft, TwiddleCache};

const UNIT: i128 = 1 << 32;

fn fx(x: i128) -> i128 {
    x * UNIT
}

#[test]
fn it_fft() {
    let mut cache = TwiddleCache::new(53);
    let samples: Vec<i128> = vec![2 << 53, 4 << 53];
    let spectrum = fft(&samples, 53, &mut cache).unwrap();
    assert_eq!(
        spectrum,
        vec![Cplx { re: 6 << 53, im: 0 }, Cplx { re: -(2i128 << 53), im: 0 }]
    );
}

#[test]
fn base_case_promotes_the_sample() {
    let mut cache = TwiddleCache::new(32);
    let spectrum = fft(&vec![fx(7)], 32, &mut cache).unwrap();
    assert_eq!(spectrum, vec![Cplx { re: fx(7), im: 0 }]);
    let spectrum = fft(&vec![fx(-9)], 32, &mut cache).unwrap();
    assert_eq!(spectrum, vec![Cplx { re: fx(-9), im: 0 }]);
}

#[test]
fn constant_signal_has_only_a_dc_bin() {
    let mut cache = TwiddleCache::new(32);
    let samples = vec![fx(1), fx(1), fx(1), fx(1)];
    let spectrum = fft(&samples, 32, &mut cache).unwrap();
    assert_eq!(
        spectrum,
        vec![
            Cplx { re: fx(4), im: 0 },
            Cplx { re: 0, im: 0 },
            Cplx { re: 0, im: 0 },
            Cplx { re: 0, im: 0 },
        ]
    );
}

#[test]
fn length_is_preserved() {
    let mut cache = TwiddleCache::new(32);
    for n in [1usize, 2, 4, 8, 16, 32] {
        let samples: Vec<i128> = (0..n).map(|i| fx(i as i128 % 5 - 2)).collect();
        let spectrum = fft(&samples, 32, &mut cache).unwrap();
        assert_eq!(spectrum.len(), n);
    }
}

#[test]
fn dc_component_is_the_sum() {
    let mut cache = TwiddleCache::new(32);
    let samples = vec![fx(1), fx(2), fx(3), fx(4), fx(-5), fx(6), fx(-7), fx(8)];
    let sum: i128 = samples.iter().sum();
    let spectrum = fft(&samples, 32, &mut cache).unwrap();
    assert_eq!(spectrum[0], Cplx { re: sum, im: 0 });
}

#[test]
fn negating_the_input_negates_the_spectrum() {
    let mut c1 = TwiddleCache::new(32);
    let mut c2 = TwiddleCache::new(32);
    let samples = vec![fx(1), fx(-2), fx(3), fx(4)];
    let negated: Vec<i128> = samples.iter().map(|x| -x).collect();
    let s1 = fft(&samples, 32, &mut c1).unwrap();
    let s2 = fft(&negated, 32, &mut c2).unwrap();
    for (a, b) in s1.iter().zip(s2.iter()) {
        assert_eq!(b.re, -a.re);
        assert_eq!(b.im, -a.im);
    }
}

#[test]
fn parseval_energy_within_tolerance() {
    let mut cache = TwiddleCache::new(32);
    let samples = vec![fx(1), fx(2), fx(3), fx(4)];
    let spectrum = fft(&samples, 32, &mut cache).unwrap();
    let spec_energy: i128 = spectrum.iter().map(|c| c.re * c.re + c.im * c.im).sum();
    let input_energy: i128 = samples.iter().map(|x| x * x).sum();
    let expected = 4 * input_energy;
    let diff = (spec_energy - expected).abs();
    assert!(diff <= expected / 1000);
}

#[test]
fn repeated_calls_reuse_the_cache() {
    let mut cache = TwiddleCache::new(32);
    let samples = vec![fx(3), fx(1), fx(-4), fx(1), fx(5), fx(-9), fx(2), fx(6)];
    let first = fft(&samples, 32, &mut cache).unwrap();
    let entries_after_first = cache.len();
    let second = fft(&samples, 32, &mut cache).unwrap();
    assert_eq!(first, second);
    assert_eq!(cache.len(), entries_after_first);
}

#[test]
fn length_three_is_rejected() {
    let mut cache = TwiddleCache::new(32);
    let samples = vec![fx(1), fx(2), fx(3)];
    assert_eq!(fft(&samples, 32, &mut cache), Err(FftError::InvalidLength));
}

#[test]
fn empty_input_is_rejected() {
    let mut cache = TwiddleCache::new(32);
    assert_eq!(fft(&vec![], 32, &mut cache), Err(FftError::InvalidLength));
}

#[test]
fn precision_mismatch_is_rejected() {
    let mut cache = TwiddleCache::new(32);
    let samples = vec![fx(1), fx(2)];
    assert_eq!(fft(&samples, 53, &mut cache), Err(FftError::PrecisionMismatch));
    // The cache is untouched and still serves its own precision.
    assert_eq!(cache.len(), 0);
    assert!(fft(&samples, 32, &mut cache).is_ok());
}

#[test]
fn decimate_splits_even_and_odd_indices() {
    let v: Vec<i128> = vec![10, 11, 12, 13, 14, 15];
    let (evens, odds) = decimate(&v);
    assert_eq!(evens, vec![10, 12, 14]);
    assert_eq!(odds, vec![11, 13, 15]);
}
