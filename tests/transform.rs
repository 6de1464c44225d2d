use live_spectrum::frame::{padded_len, zero_pad, StreamConfig};
use live_spectrum::plan::{checked_transform_plan, transform_plan, Butterfly, TransformError};
use live_spectrum::pow2::{is_power_of_two, next_power_of_two};
use num_complex::Complex64;
use std::f64::consts::PI;

fn transform(input: &[Complex64]) -> Vec<Complex64> {
    let padded = zero_pad(&input.to_vec(), Complex64::new(0.0, 0.0));
    let n = padded.len();
    let mut work = padded.clone();
    let mut scratch = padded;
    for b in transform_plan(n) {
        let w = Complex64::from_polar(1.0, -2.0 * PI * (b.twiddle as f64) / (n as f64));
        if b.into_scratch {
            let t = w * work[b.odd];
            scratch[b.low] = work[b.even] + t;
            scratch[b.high] = work[b.even] - t;
        } else {
            let t = w * scratch[b.odd];
            work[b.low] = scratch[b.even] + t;
            work[b.high] = scratch[b.even] - t;
        }
    }
    work
}

fn naive_dft(x: &[Complex64]) -> Vec<Complex64> {
    let n = x.len();
    (0..n)
        .map(|k| {
            (0..n)
                .map(|j| x[j] * Complex64::from_polar(1.0, -2.0 * PI * ((j * k) % n) as f64 / n as f64))
                .sum()
        })
        .collect()
}

fn inverse(y: &[Complex64]) -> Vec<Complex64> {
    let n = y.len() as f64;
    let conj: Vec<Complex64> = y.iter().map(|c| c.conj()).collect();
    transform(&conj).iter().map(|c| c.conj() / n).collect()
}

fn close(a: &[Complex64], b: &[Complex64], tol: f64) -> bool {
    a.len() == b.len() && a.iter().zip(b).all(|(x, y)| (x - y).norm() <= tol)
}

fn signal(n: usize, seed: u64) -> Vec<Complex64> {
    let mut s = seed;
    (0..n)
        .map(|_| {
            s = s.wrapping_mul(6364136223846793005).wrapping_add(1442695040888963407);
            let re = ((s >> 33) % 2001) as f64 / 1000.0 - 1.0;
            s = s.wrapping_mul(6364136223846793005).wrapping_add(1442695040888963407);
            let im = ((s >> 33) % 2001) as f64 / 1000.0 - 1.0;
            Complex64::new(re, im)
        })
        .collect()
}

fn power(values: &[Complex64], frame_size: usize) -> Vec<f64> {
    values.iter().map(|c| c.norm_sqr() * 2.0 / frame_size as f64).collect()
}

#[test]
fn padded_length_is_next_power_of_two() {
    assert_eq!(padded_len(5), 8);
    assert_eq!(padded_len(256), 256);
    assert_eq!(padded_len(1), 1);
    assert_eq!(padded_len(0), 1);
    assert_eq!(padded_len(3), 4);
    assert_eq!(padded_len(257), 512);
    for n in 1..2000usize {
        let r = next_power_of_two(n);
        assert!(r.is_power_of_two() && r >= n && (r == 1 || r / 2 < n));
    }
}

#[test]
fn padded_length_at_largest_input() {
    let top = usize::MAX / 2 + 1;
    assert_eq!(next_power_of_two(top), top);
    assert_eq!(next_power_of_two(top - 1), top);
}

#[test]
fn zero_pad_keeps_samples_and_fills_zeros() {
    let r = zero_pad(&vec![1i32, 2, 3, 4, 5], 0);
    assert_eq!(r, vec![1, 2, 3, 4, 5, 0, 0, 0]);
    let r = zero_pad(&vec![7i32, 8, 9, 10], 0);
    assert_eq!(r, vec![7, 8, 9, 10]);
    let r: Vec<i32> = zero_pad(&vec![], 0);
    assert_eq!(r, vec![0]);
}

#[test]
fn plan_of_one_is_empty() {
    assert!(transform_plan(1).is_empty());
}

#[test]
fn plan_of_two_and_four() {
    let b = |even, odd, low, high, twiddle, into_scratch| Butterfly { even, odd, low, high, twiddle, into_scratch };
    assert_eq!(transform_plan(2), vec![b(0, 1, 0, 1, 0, false)]);
    assert_eq!(
        transform_plan(4),
        vec![
            b(0, 2, 0, 2, 0, true),
            b(1, 3, 1, 3, 0, true),
            b(0, 1, 0, 2, 0, false),
            b(2, 3, 1, 3, 1, false),
        ]
    );
}

#[test]
fn plan_sizes_and_bounds() {
    let mut n = 1usize;
    for levels in 0..11usize {
        let plan = transform_plan(n);
        assert_eq!(plan.len(), levels * n / 2);
        assert!(plan.iter().all(|b| b.even < n && b.odd < n && b.low < n && b.high < n && b.twiddle < n));
        n *= 2;
    }
}

#[test]
fn single_element_unchanged() {
    let x = vec![Complex64::new(0.25, -3.5)];
    assert_eq!(transform(&x), x);
}

#[test]
fn zeros_give_zeros() {
    for n in [1usize, 2, 4, 8, 64, 256] {
        let x = vec![Complex64::new(0.0, 0.0); n];
        assert!(transform(&x).iter().all(|c| c.re == 0.0 && c.im == 0.0));
    }
}

#[test]
fn matches_direct_dft() {
    for n in [1usize, 2, 4, 8, 16, 64] {
        let x = signal(n, n as u64);
        assert!(close(&transform(&x), &naive_dft(&x), 1e-9));
    }
    let x = vec![Complex64::new(1.0, 0.0), Complex64::new(2.0, 0.0), Complex64::new(3.0, 0.0), Complex64::new(4.0, 0.0)];
    let expected = vec![
        Complex64::new(10.0, 0.0),
        Complex64::new(-2.0, 2.0),
        Complex64::new(-2.0, 0.0),
        Complex64::new(-2.0, -2.0),
    ];
    assert!(close(&transform(&x), &expected, 1e-12));
}

#[test]
fn round_trip_reconstructs_input() {
    for n in [1usize, 2, 4, 8, 64] {
        let x = signal(n, 7 + n as u64);
        assert!(close(&inverse(&transform(&x)), &x, 1e-9));
    }
}

#[test]
fn transform_is_linear() {
    let a = Complex64::new(1.5, -0.5);
    let b = Complex64::new(-2.0, 0.25);
    for n in [2usize, 8, 64] {
        let x = signal(n, 11);
        let y = signal(n, 12);
        let mixed: Vec<Complex64> = x.iter().zip(&y).map(|(p, q)| a * p + b * q).collect();
        let lhs = transform(&mixed);
        let rhs: Vec<Complex64> = transform(&x).iter().zip(&transform(&y)).map(|(p, q)| a * p + b * q).collect();
        assert!(close(&lhs, &rhs, 1e-9));
    }
}

#[test]
fn short_frame_is_padded_before_transform() {
    let x: Vec<Complex64> = (1..=5).map(|v| Complex64::new(v as f64, 0.0)).collect();
    let y = transform(&x);
    assert_eq!(y.len(), 8);
    let mut padded = x.clone();
    padded.resize(8, Complex64::new(0.0, 0.0));
    assert!(close(&y, &naive_dft(&padded), 1e-9));
}

#[test]
fn sinusoid_peaks_at_its_bin() {
    let sample_rate = 44_100.0;
    let frame_size = 256usize;
    let bin = 20usize;
    let f = bin as f64 * sample_rate / frame_size as f64;
    let x: Vec<Complex64> = (0..frame_size)
        .map(|t| Complex64::new((2.0 * PI * f * t as f64 / sample_rate).sin(), 0.0))
        .collect();
    let spectrum = power(&transform(&x), frame_size);
    assert_eq!(spectrum.len(), 256);
    let peak = (0..frame_size / 2).max_by(|&i, &j| spectrum[i].partial_cmp(&spectrum[j]).unwrap()).unwrap();
    assert_eq!(peak, (f * 256.0 / sample_rate).round() as usize);
    for k in 0..frame_size / 2 {
        if k != peak {
            assert!(spectrum[peak] >= 10.0 * spectrum[k]);
        }
    }
}

#[test]
fn power_is_never_negative() {
    for n in [1usize, 5, 8, 100, 256] {
        let x = signal(n, 3 * n as u64);
        assert!(power(&transform(&x), n).iter().all(|p| *p >= 0.0));
    }
}

#[test]
fn power_of_two_test() {
    assert!(!is_power_of_two(0));
    assert!(is_power_of_two(1));
    assert!(is_power_of_two(2));
    assert!(!is_power_of_two(3));
    assert!(!is_power_of_two(6));
    assert!(is_power_of_two(256));
    assert!(!is_power_of_two(257));
    assert!(is_power_of_two(usize::MAX / 2 + 1));
    assert!(!is_power_of_two(usize::MAX));
}

#[test]
fn checked_plan_rejects_bad_lengths() {
    assert_eq!(checked_transform_plan(8, 4), Err(TransformError::InvalidBufferLength));
    assert_eq!(checked_transform_plan(6, 6), Err(TransformError::InvalidBufferLength));
    assert_eq!(checked_transform_plan(0, 0), Err(TransformError::InvalidBufferLength));
    assert_eq!(checked_transform_plan(8, 8), Ok(transform_plan(8)));
    assert_eq!(checked_transform_plan(1, 1), Ok(vec![]));
}

#[test]
fn stream_config_frame_sizes() {
    let c = StreamConfig { sample_rate: 44_100, frame_size: 256, channels: 2 };
    assert_eq!(c.samples_per_frame(), Some(512));
    assert!(c.is_whole_frame(512));
    assert!(!c.is_whole_frame(256));
    let big = StreamConfig { sample_rate: 8_000, frame_size: usize::MAX / 2 + 1, channels: 2 };
    assert_eq!(big.samples_per_frame(), None);
    assert!(!big.is_whole_frame(0));
    let none = StreamConfig { sample_rate: 8_000, frame_size: 256, channels: 0 };
    assert_eq!(none.samples_per_frame(), Some(0));
    assert_eq!(padded_len(c.samples_per_frame().unwrap()), 512);
}
