//! The signal path in single-precision floating point.
use std::cell::Cell;
use std::f32::consts;

use mbtransient::biquad::{process_biquad, process_biquad_pair, BiquadCoeffs, BiquadState, Phasor};
use mbtransient::crossover::{corner, Crossover, CrossoverState, MAX_BANDS, MAX_CROSSOVERS};
use mbtransient::params::initial_xovers;
use mbtransient::plugin::{shape_db, ChannelState, Gains, MbTransient};
use mbtransient::scalar::{Number, Scalar};
use mbtransient::shaper::{decays, exponents, Decays, TransientShaper};
use mbtransient::spectrum::{
    publish_spectrum, SpectrumAnalyzer, SpectrumData, SPECTRUM_BINS, SPECTRUM_FFT_SIZE,
    SPECTRUM_HOP,
};
use realfft::RealFftPlanner;

#[derive(Clone, Copy, Debug, PartialEq)]
struct F(f32);

impl Number for F {}

impl Scalar for F {
    fn zero() -> Self {
        F(0.0)
    }

    fn one() -> Self {
        F(1.0)
    }

    fn ratio(n: i32, d: i32) -> Self {
        F(n as f32 / d as f32)
    }

    fn tau() -> Self {
        F(consts::TAU)
    }

    fn frac_1_sqrt_2() -> Self {
        F(consts::FRAC_1_SQRT_2)
    }

    fn from_usize(n: usize) -> Self {
        F(n as f32)
    }

    fn add(self, other: Self) -> Self {
        F(self.0 + other.0)
    }

    fn sub(self, other: Self) -> Self {
        F(self.0 - other.0)
    }

    fn mul(self, other: Self) -> Self {
        F(self.0 * other.0)
    }

    fn div(self, other: Self) -> Self {
        F(self.0 / other.0)
    }

    fn neg(self) -> Self {
        F(-self.0)
    }

    fn abs(self) -> Self {
        F(self.0.abs())
    }

    fn max(self, other: Self) -> Self {
        F(self.0.max(other.0))
    }

    fn min(self, other: Self) -> Self {
        F(self.0.min(other.0))
    }

    fn lt(self, other: Self) -> bool {
        self.0 < other.0
    }

    fn le(self, other: Self) -> bool {
        self.0 <= other.0
    }

    fn equals(self, other: Self) -> bool {
        self.0 == other.0
    }

    fn to_usize(self) -> usize {
        self.0 as usize
    }

    fn to_byte(self) -> u8 {
        self.0.round() as u8
    }
}

fn circle(angle: F) -> Phasor<F> {
    Phasor { cos: F(angle.0.cos()), sin: F(angle.0.sin()) }
}

fn cos(x: F) -> F {
    F(x.0.cos())
}

fn exp(x: F) -> F {
    F(x.0.exp())
}

fn log10(x: F) -> F {
    F(x.0.log10())
}

fn db_to_gain(db: F) -> F {
    if db.0 > -100.0 {
        F(10.0f32.powf(db.0 * 0.05))
    } else {
        F(0.0)
    }
}

fn fft(frame: Vec<F>) -> Vec<F> {
    let r2c = RealFftPlanner::<f32>::new().plan_fft_forward(SPECTRUM_FFT_SIZE);
    let mut input: Vec<f32> = frame.iter().map(|x| x.0).collect();
    let mut output = r2c.make_output_vec();
    r2c.process(&mut input, &mut output).unwrap();
    output.iter().map(|c| F(c.norm())).collect()
}

fn floats(xs: &[f32]) -> Vec<F> {
    xs.iter().map(|x| F(*x)).collect()
}

fn same_coeffs(a: &BiquadCoeffs<F>, b: &BiquadCoeffs<F>) -> bool {
    a.b0 == b.b0 && a.b1 == b.b1 && a.b2 == b.b2 && a.a1 == b.a1 && a.a2 == b.a2
}

// ---- biquad ----

#[test]
fn identity_passes_through() {
    let c = BiquadCoeffs::<F>::identity();
    let mut s = BiquadState::default();
    for x in [1.0f32, -0.5, 0.25, 0.0, 3.0] {
        assert_eq!(process_biquad(&c, &mut s, F(x)), F(x));
    }
    assert_eq!((s.z1, s.z2), (F(0.0), F(0.0)));
}

#[test]
fn designs_have_the_textbook_coefficients() {
    let (sr, f) = (48_000.0f32, 1000.0f32);
    let omega = consts::TAU * (f / sr);
    let (c, alpha) = (omega.cos(), omega.sin() / (2.0 * consts::FRAC_1_SQRT_2));
    let a0 = 1.0 + alpha;

    let lp = BiquadCoeffs::lowpass(F(sr), F(f), &circle);
    assert_eq!(lp.b0, F(((1.0 - c) / 2.0) / a0));
    assert_eq!(lp.b1, F((1.0 - c) / a0));
    assert_eq!(lp.b2, F(((1.0 - c) / 2.0) / a0));
    assert_eq!(lp.a1, F((-2.0 * c) / a0));
    assert_eq!(lp.a2, F((1.0 - alpha) / a0));

    let hp = BiquadCoeffs::highpass(F(sr), F(f), &circle);
    assert_eq!(hp.b0, F(((1.0 + c) / 2.0) / a0));
    assert_eq!(hp.b1, F(-(1.0 + c) / a0));
    assert_eq!(hp.b2, F(((1.0 + c) / 2.0) / a0));
    assert_eq!(hp.a1, lp.a1);
    assert_eq!(hp.a2, lp.a2);

    let ap = BiquadCoeffs::allpass(F(sr), F(f), &circle);
    assert_eq!(ap.b0, F((1.0 - alpha) / a0));
    assert_eq!(ap.b1, F((-2.0 * c) / a0));
    assert_eq!(ap.b2, F((1.0 + alpha) / a0));
    assert_eq!(ap.a1, lp.a1);
    assert_eq!(ap.a2, lp.a2);
}

#[test]
fn designs_at_a_point_of_the_circle() {
    let at = circle(F(0.3));
    let from = |a: F| {
        assert_eq!(a, F(consts::TAU * (480.0 / 48_000.0)));
        circle(F(0.3))
    };
    let (sr, f) = (F(48_000.0), F(480.0));
    assert!(same_coeffs(&BiquadCoeffs::lowpass(sr, f, &from), &BiquadCoeffs::lowpass_at(at)));
    assert!(same_coeffs(&BiquadCoeffs::highpass(sr, f, &from), &BiquadCoeffs::highpass_at(at)));
    assert!(same_coeffs(&BiquadCoeffs::allpass(sr, f, &from), &BiquadCoeffs::allpass_at(at)));
}

#[test]
fn biquad_follows_its_difference_equation() {
    let c = BiquadCoeffs { b0: F(0.5), b1: F(0.25), b2: F(2.0), a1: F(-1.0), a2: F(0.5) };
    let mut s = BiquadState::default();
    let ys: Vec<f32> =
        [1.0f32, 0.0, 0.0, 0.0].iter().map(|x| process_biquad(&c, &mut s, F(*x)).0).collect();
    // y0 = b0, y1 = b1 - a1 y0, y2 = b2 - a1 y1 - a2 y0, y3 = -a1 y2 - a2 y1
    assert_eq!(ys, [0.5, 0.75, 2.5, 2.125]);
}

#[test]
fn a_pair_is_one_section_behind_the_other() {
    let lp = BiquadCoeffs::lowpass(F(48_000.0), F(2000.0), &circle);
    let hp = BiquadCoeffs::highpass(F(48_000.0), F(300.0), &circle);
    let (mut a, mut b) = (BiquadState::default(), BiquadState::default());
    let mut pair = [BiquadState::default(); 2];
    for n in 0..100 {
        let x = F((n as f32 * 0.1).sin());
        let one = process_biquad(&lp, &mut a, x);
        let two = process_biquad(&hp, &mut b, one);
        assert_eq!(process_biquad_pair(&[lp, hp], &mut pair, x), two);
    }
}

/// The power of `k0 + k1 / z + k2 / (z z)` at the angle `omega`.
fn power(k0: F, k1: F, k2: F, omega: f64) -> f64 {
    let (k0, k1, k2) = (k0.0 as f64, k1.0 as f64, k2.0 as f64);
    let re = k0 + k1 * omega.cos() + k2 * (2.0 * omega).cos();
    let im = k1 * omega.sin() + k2 * (2.0 * omega).sin();
    re * re + im * im
}

#[test]
fn sections_share_their_weights() {
    for f in [20.0f32, 150.0, 1500.0, 8000.0, 16_000.0, 23_900.0] {
        let lp = BiquadCoeffs::lowpass(F(48_000.0), F(f), &circle);
        let hp = BiquadCoeffs::highpass(F(48_000.0), F(f), &circle);
        let ap = BiquadCoeffs::allpass(F(48_000.0), F(f), &circle);
        assert_eq!((hp.a1, hp.a2), (lp.a1, lp.a2));
        assert_eq!((hp.a1, hp.a2), (ap.a1, ap.a2));
        assert_eq!((hp.b2, lp.b2), (hp.b0, lp.b0));
        assert_eq!(hp.b1.0, -2.0 * hp.b0.0);
        assert_eq!(lp.b1.0, 2.0 * lp.b0.0);
        assert_eq!(hp.b0.0 + hp.b1.0 + hp.b2.0, 0.0);
        assert_eq!(lp.b0.0 - lp.b1.0 + lp.b2.0, 0.0);
        let top = hp.b0.0 - hp.b1.0 + hp.b2.0;
        assert!((top - (1.0 - hp.a1.0 + hp.a2.0)).abs() < 1e-5);
        let bottom = lp.b0.0 + lp.b1.0 + lp.b2.0;
        assert!((bottom - (1.0 + lp.a1.0 + lp.a2.0)).abs() < 1e-5);
    }
}

/// `k0 + k1 / z + k2 / (z z)` at the angle `omega`, twice in a row.
fn twice(k0: F, k1: F, k2: F, omega: f64) -> (f64, f64) {
    let (k0, k1, k2) = (k0.0 as f64, k1.0 as f64, k2.0 as f64);
    let re = k0 + k1 * omega.cos() + k2 * (2.0 * omega).cos();
    let im = -(k1 * omega.sin() + k2 * (2.0 * omega).sin());
    (re * re - im * im, 2.0 * re * im)
}

#[test]
fn two_sections_are_linkwitz_riley() {
    let f = 3000.0f32;
    let lp = BiquadCoeffs::lowpass(F(48_000.0), F(f), &circle);
    let hp = BiquadCoeffs::highpass(F(48_000.0), F(f), &circle);
    let corner = std::f64::consts::TAU * (f as f64 / 48_000.0);
    for w in [0.05f64, 0.2, corner, 1.0, 2.0, 3.0] {
        let (a, b) = twice(lp.b0, lp.b1, lp.b2, w);
        let (c, d) = twice(hp.b0, hp.b1, hp.b2, w);
        assert!((a * d - b * c).abs() < 1e-7);
        assert!(a * c + b * d >= 0.0);
        let shared = power(F(1.0), lp.a1, lp.a2, w).powi(2);
        let t = ((w / 2.0).tan() / (corner / 2.0).tan()).powi(4);
        assert!(((a * a + b * b) / shared - 1.0 / (1.0 + t).powi(2)).abs() < 1e-4);
        assert!(((c * c + d * d) / shared - (t / (1.0 + t)).powi(2)).abs() < 1e-4);
    }
}

#[test]
fn sections_are_butterworth() {
    let f = 3000.0f32;
    let lp = BiquadCoeffs::lowpass(F(48_000.0), F(f), &circle);
    let hp = BiquadCoeffs::highpass(F(48_000.0), F(f), &circle);
    let corner = std::f64::consts::TAU * (f as f64 / 48_000.0);
    let low = |w: f64| power(lp.b0, lp.b1, lp.b2, w) / power(F(1.0), lp.a1, lp.a2, w);
    let high = |w: f64| power(hp.b0, hp.b1, hp.b2, w) / power(F(1.0), hp.a1, hp.a2, w);
    assert!((low(corner) - 0.5).abs() < 1e-4);
    assert!((high(corner) - 0.5).abs() < 1e-4);
    for w in [0.05f64, 0.2, 0.4, 1.0, 2.0, 3.0] {
        let t = ((w / 2.0).tan() / (corner / 2.0).tan()).powi(4);
        assert!((low(w) - 1.0 / (1.0 + t)).abs() < 1e-4);
        assert!((high(w) - t / (1.0 + t)).abs() < 1e-4);
    }
}

// ---- crossover ----

#[test]
fn crossover_reconstructs_flat() {
    let sr = 48_000.0;
    let crossover = Crossover::new(F(sr), &[F(150.0), F(1500.0), F(8000.0)], &circle);
    let mut state = CrossoverState::default();
    let num_bands = 4;

    // Feed a steady signal so the filters settle, then check the RMS.
    for n in 0..48_000 {
        let x = (consts::TAU * 440.0 * n as f32 / sr).sin() * 0.5;
        let bands = crossover.process(&mut state, F(x), num_bands);
        let sum: f32 = bands.iter().map(|b| b.0).sum();
        assert!(sum.is_finite());
    }

    // A steady sine should sum back to (approximately) the same sine, just
    // with an all-pass phase shift. Check that the RMS of the sum matches
    // the input RMS.
    let mut state = CrossoverState::default();
    let mut input_rms = 0.0;
    let mut output_rms = 0.0;
    for n in 0..48_000 {
        let x = (consts::TAU * 440.0 * n as f32 / sr).sin() * 0.5;
        let bands = crossover.process(&mut state, F(x), num_bands);
        let sum: f32 = bands.iter().map(|b| b.0).sum();
        if n > 4096 {
            input_rms += x * x;
            output_rms += sum * sum;
        }
    }
    input_rms = (input_rms / 48_000.0).sqrt();
    output_rms = (output_rms / 48_000.0).sqrt();

    // The all-pass reconstruction keeps the magnitude flat, so the RMS
    // should be essentially identical.
    assert!((input_rms - output_rms).abs() < 1e-3, "in={input_rms} out={output_rms}");
}

#[test]
fn bands_sum_to_the_allpass_sections() {
    let (sr, freqs) = (F(48_000.0), floats(&[150.0, 1500.0, 8000.0, 12_000.0, 16_000.0]));
    for num_bands in 1..=MAX_BANDS {
        let crossover = Crossover::new(sr, &freqs[..num_bands - 1], &circle);
        let mut state = CrossoverState::default();
        let mut sections = [BiquadState::default(); MAX_CROSSOVERS];
        for n in 0..2000 {
            let x = F(((n * n) as f32 * 0.01).sin());
            let bands = crossover.process(&mut state, x, num_bands);
            let sum: f32 = bands.iter().map(|b| b.0).sum();
            let mut y = x;
            for i in 0..num_bands - 1 {
                let ap = BiquadCoeffs::allpass(sr, freqs[i], &circle);
                y = process_biquad(&ap, &mut sections[i], y);
            }
            assert!((sum - y.0).abs() < 1e-3, "{num_bands} bands, sample {n}: {sum} {}", y.0);
            for band in num_bands..MAX_BANDS {
                assert_eq!(bands[band], F(0.0));
            }
        }
    }
}

#[test]
fn no_bands_give_nothing() {
    let crossover = Crossover::new(F(48_000.0), &[], &circle);
    let mut state = CrossoverState::default();
    assert_eq!(crossover.process(&mut state, F(1.0), 0), [F(0.0); MAX_BANDS]);
    // More bands than there can be are six bands.
    assert_eq!(crossover.process(&mut state, F(1.0), 9), [F(1.0); MAX_BANDS]);
}

#[test]
fn corners_are_held_below_nyquist() {
    assert_eq!(corner(F(48_000.0), F(1.0)), F(20.0));
    assert_eq!(corner(F(48_000.0), F(1000.0)), F(1000.0));
    assert_eq!(corner(F(48_000.0), F(30_000.0)), F(24_000.0 * 0.95));
    let wide = Crossover::new(F(48_000.0), &floats(&[1.0, 1e6]), &circle);
    let held = Crossover::new(F(48_000.0), &floats(&[20.0, 24_000.0 * 0.95]), &circle);
    for i in 0..2 {
        assert!(same_coeffs(&wide.ap[i], &held.ap[i]));
        assert!(same_coeffs(&wide.lp[i][0], &held.lp[i][1]));
        assert!(same_coeffs(&wide.hp[i][0], &held.hp[i][1]));
    }
}

#[test]
fn sections_without_a_frequency_are_idle() {
    let many = floats(&[100.0, 200.0, 400.0, 800.0, 1600.0, 3200.0, 6400.0]);
    let mut crossover = Crossover::new(F(48_000.0), &many, &circle);
    let last = BiquadCoeffs::allpass(F(48_000.0), F(1600.0), &circle);
    assert!(same_coeffs(&crossover.ap[4], &last));
    crossover.update(F(48_000.0), &many[..2], &circle);
    let identity = BiquadCoeffs::identity();
    for i in 2..MAX_CROSSOVERS {
        assert!(same_coeffs(&crossover.ap[i], &identity));
        assert!(same_coeffs(&crossover.lp[i][1], &identity));
        assert!(same_coeffs(&crossover.hp[i][0], &identity));
    }
    let mut followed = Crossover::new(F(48_000.0), &[], &circle);
    let zero = circle(F(0.0));
    let at = |f: f32| circle(F(consts::TAU * (f / 48_000.0)));
    followed.follow(&[at(100.0), at(200.0), zero, zero, zero], 2);
    for i in 0..MAX_CROSSOVERS {
        assert!(same_coeffs(&crossover.ap[i], &followed.ap[i]));
    }
}

#[test]
fn reset_crossovers_start_over() {
    let crossover = Crossover::new(F(48_000.0), &floats(&[500.0, 5000.0]), &circle);
    let mut fresh = CrossoverState::default();
    let mut used = CrossoverState::default();
    for n in 0..50 {
        crossover.process(&mut used, F(n as f32), 3);
    }
    used.reset();
    for n in 0..50 {
        let x = F((n as f32).cos());
        assert_eq!(crossover.process(&mut used, x, 3), crossover.process(&mut fresh, x, 3));
    }
}

// ---- shaper ----

#[test]
fn transient_shaper_passthrough() {
    let mut shaper = TransientShaper::new();
    shaper.update(F(48_000.0), F(50.0), &exp);

    let mut out = F(0.0);
    for n in 0..48_000 {
        let x = (consts::TAU * 440.0 * n as f32 / 48_000.0).sin() * 0.5;
        out = shaper.process(F(x), F(1.0), F(1.0));
        assert!((out.0 - x).abs() < 1e-4);
    }
    assert!(out.0.is_finite());
}

#[test]
fn shaper_coefficients() {
    let mut shaper = TransientShaper::new();
    shaper.update(F(48_000.0), F(50.0), &exp);
    assert_eq!(shaper.release_coef, F((-1.0f32 / (48_000.0 * 0.05)).exp()));
    assert_eq!(shaper.body_coef, F(1.0 - (-1.0f32 / (48_000.0 * 0.05)).exp()));
    assert_eq!(shaper.gain_coef, F(1.0 - (-1.0f32 / (48_000.0 * 0.003)).exp()));
    // The release is never shorter than 2 ms, the body never shorter than 3 ms, and the sample
    // rate never below 1 Hz.
    let e = exponents(F(0.0), F(0.5));
    assert_eq!(e.release, F(-1.0 / 0.002));
    assert_eq!(e.body, F(-1.0 / 0.003));
    assert_eq!(e.gain, F(-1.0 / 0.003));
    let d = decays(F(48_000.0), F(50.0), &exp);
    let mut other = TransientShaper::new();
    other.smooth(d);
    assert_eq!(other.body_coef, shaper.body_coef);
}

#[test]
fn lower_speeds_recover_faster() {
    let mut last = exponents(F(48_000.0), F(1.0));
    assert_eq!(last.release, exponents(F(48_000.0), F(2.0)).release);
    for speed in [2.0f32, 2.5, 3.0, 50.0, 200.0] {
        let next = exponents(F(48_000.0), F(speed));
        assert!(last.release.0 <= next.release.0 && next.release.0 < 0.0);
        assert!(last.body.0 <= next.body.0 && next.body.0 < 0.0);
        assert_eq!(last.gain, next.gain);
        last = next;
    }
}

#[test]
fn shaper_steps() {
    let mut shaper = TransientShaper::new();
    shaper.smooth(Decays { release: F(0.5), body: F(0.75), gain: F(0.5) });
    // env 1, body 0.25, attack fraction 0.75, target 0.75 * 0.5 + 0.25 * 1 = 0.625
    assert_eq!(shaper.process(F(-1.0), F(0.5), F(1.0)), F(-0.8125));
    assert_eq!((shaper.env, shaper.body, shaper.gain), (F(1.0), F(0.25), F(0.8125)));
    // env 0 + 0.5 * 1, body 0.25 + 0.25 * 0.25
    shaper.process(F(0.0), F(0.5), F(1.0));
    assert_eq!((shaper.env, shaper.body), (F(0.5), F(0.3125)));
    shaper.reset();
    assert_eq!((shaper.env, shaper.body, shaper.gain), (F(0.0), F(0.0), F(1.0)));
    assert_eq!(shaper.release_coef, F(0.5));
    // Silence is no transient.
    shaper.process(F(1e-7), F(0.0), F(1.0));
    assert_eq!(shaper.gain, F(1.0));
}

#[test]
fn shaper_only_cuts() {
    let mut shaper = TransientShaper::default();
    shaper.update(F(48_000.0), F(20.0), &exp);
    for n in 0..5000 {
        let x = if n % 1000 < 500 { (n as f32 * 0.3).sin() } else { 0.01 };
        let y = shaper.process(F(x), F(0.1), F(1.0));
        assert!(y.0.abs() <= x.abs() * 1.0001);
        assert!(shaper.env.0 >= x.abs() && shaper.gain.0 >= 0.0 && shaper.gain.0 <= 1.0001);
    }
}

#[test]
fn a_neutral_shaper_changes_nothing() {
    let mut shaper = TransientShaper::new();
    shaper.update(F(48_000.0), F(7.0), &exp);
    for n in 0..5000 {
        let x = F((n as f32 * 0.37).sin() * (n as f32 * 0.001).cos());
        assert_eq!(shaper.process(x, F(1.0), F(1.0)), x);
        assert_eq!(shaper.gain, F(1.0));
    }
}

#[test]
fn the_shaper_is_odd() {
    let mut up = TransientShaper::new();
    let mut down = TransientShaper::new();
    up.update(F(48_000.0), F(7.0), &exp);
    down.update(F(48_000.0), F(7.0), &exp);
    for n in 0..2000 {
        let x = F((n as f32 * 0.37).sin());
        let y = up.process(x, F(0.2), F(0.9));
        assert_eq!(down.process(x.neg(), F(0.2), F(0.9)), y.neg());
        assert_eq!((up.env, up.body, up.gain), (down.env, down.body, down.gain));
    }
}

/// Numbers of all kinds.
fn kinds() -> Vec<f32> {
    let mut xs = vec![0.0, 1e-45, 1e-38, 1e-20, 0.1, 0.3, 0.5, 0.9999999, 1.0, 1.0000001];
    xs.extend([1.5, 2.0, 3.0, 1000.0, 48_000.0, 16_777_215.0, 1e30, 2e38, f32::MAX, f32::INFINITY]);
    let below: Vec<f32> = xs.iter().map(|x| -x).collect();
    xs.extend(below);
    xs.push(f32::NAN);
    xs
}

#[test]
fn single_precision_numbers_compare_and_round() {
    let xs = kinds();
    for &a in &xs {
        for &b in &xs {
            assert_eq!(a < b, a <= b && !(b <= a));
            assert_eq!(a == b, a <= b && b <= a);
            assert!(!(a <= b) || (a <= a && b <= b));
            assert!(!(a <= a && b <= b) || a <= b || b <= a);
            let g = F(a).max(F(b)).0;
            assert!(!(a <= b) || g == b);
            assert!(!(b <= a) || g == a);
            assert!(a <= a || g.to_bits() == b.to_bits());
            for &c in &xs {
                assert!(!(a <= b && b <= c) || a <= c);
                // products and quotients of positive numbers
                assert!(!(0.0 < c && 0.0 < a && a <= b) || c * a <= c * b);
                assert!(!(1.0 <= c && 0.0 < a) || a <= c * a);
                assert!(!(c.is_finite() && 0.0 < c && a <= b) || a / c <= b / c);
                assert!(!(a.is_finite() && a <= 0.0 && 0.0 < b) || a / b <= 0.0);
                assert!(!(a.is_finite() && a <= 0.0 && 0.0 < b && b <= c) || a / b <= a / c);
            }
            if a.is_finite() && b.is_finite() {
                let (p, q) = (a as f64, b as f64);
                for &e in &xs {
                    if !e.is_finite() {
                        continue;
                    }
                    let w = e as f64;
                    for (r, v) in [(a + b, p + q), (a - b, p - q), (a * b, p * q)] {
                        assert!(!(w <= v) || e <= r);
                        assert!(!(v <= w) || r <= e);
                    }
                    if b != 0.0 {
                        assert!(!(w <= p / q) || e <= a / b);
                        assert!(!(p / q <= w) || a / b <= e);
                    }
                    for &d in &xs {
                        if d.is_finite() {
                            let u = d as f64;
                            assert!(!(p + q <= w + u) || a + b <= e + d);
                            assert!(!(p - q <= w - u) || a - b <= e - d);
                        }
                    }
                }
            }
        }
        if a.is_finite() {
            assert_eq!((a * 1.0).to_bits(), a.to_bits());
            assert_eq!(1.0 + a * 0.0, 1.0);
            assert!(!(0.0..=1.0).contains(&a) || a + (1.0 - a) == 1.0);
        }
    }
    for k in 0..100_000u32 {
        let f = k as f32 / 99_999.0;
        assert_eq!(f + (1.0 - f), 1.0);
    }
}

#[test]
fn shapers_only_ever_cut() {
    let mut shaper = TransientShaper::new();
    for n in 0..20_000 {
        if n % 1000 == 0 {
            shaper.update(F(48_000.0), F(n as f32 / 100.0), &exp);
        }
        let x = F((n as f32 * 0.37).sin() * (n as f32 * 0.003).cos() * 1e4);
        let (a, s) = (F((n as f32 * 0.11).sin().abs()), F((n as f32 * 0.07).cos().abs()));
        let y = shaper.process(x, a, s);
        assert!(y.0.abs() <= x.0.abs());
        assert!(y.0 * x.0 >= 0.0);
        assert!(0.0 <= shaper.gain.0 && shaper.gain.0 <= 1.0);
        assert!(shaper.env.0 >= x.0.abs());
    }
}

#[test]
fn updates_give_fractions_for_anything() {
    for &rate in &kinds() {
        for &speed in &kinds() {
            let mut shaper = TransientShaper::new();
            shaper.process(F(0.5), F(0.3), F(0.7));
            let before = (shaper.env, shaper.body, shaper.gain);
            shaper.update(F(rate), F(speed), &exp);
            for c in [shaper.release_coef, shaper.body_coef, shaper.gain_coef] {
                assert!((0.0..=1.0).contains(&c.0), "{rate} {speed}");
            }
            assert_eq!((shaper.env, shaper.body, shaper.gain), before);
            if !(speed > 2.0) {
                let mut two = TransientShaper::new();
                two.update(F(rate), F(2.0), &exp);
                assert_eq!(
                    (shaper.release_coef, shaper.body_coef, shaper.gain_coef),
                    (two.release_coef, two.body_coef, two.gain_coef),
                );
            }
            if speed >= 3.0 {
                assert_eq!(shaper.body_coef.0, 1.0 - shaper.release_coef.0);
            }
        }
    }
}

#[test]
fn coefficients_of_the_speed() {
    let coefs = |speed: f32| {
        let mut shaper = TransientShaper::new();
        shaper.update(F(48_000.0), F(speed), &exp);
        (shaper.release_coef.0, shaper.body_coef.0, shaper.gain_coef.0)
    };
    assert_eq!(coefs(0.1), coefs(2.0));
    let mut last = coefs(2.0);
    for speed in [2.5f32, 3.0, 10.0, 50.0, 200.0] {
        let next = coefs(speed);
        assert!(0.0 <= next.0 && next.0 <= 1.0 && 0.0 <= next.1 && next.1 <= 1.0);
        assert!(last.0 <= next.0 && last.1 >= next.1);
        assert_eq!(last.2, next.2);
        if speed >= 3.0 {
            assert_eq!(next.1, 1.0 - next.0);
        }
        last = next;
    }
}

#[test]
fn cutting_the_attack_leaves_the_sustain() {
    let mut shaper = TransientShaper::new();
    shaper.update(F(48_000.0), F(5.0), &exp);
    let mut first = 0.0f32;
    let mut last = 0.0f32;
    for n in 0..48_000 {
        let y = shaper.process(F(1.0), F(0.0), F(1.0));
        if n == 150 {
            first = y.0;
        }
        last = y.0;
    }
    assert!(first < 0.7, "attack {first}");
    assert!(last > 0.99, "sustain {last}");
}

// ---- spectrum ----

#[test]
fn spectrum_starts_silent() {
    let data = SpectrumData::<F>::new();
    assert_eq!(data.sample_rate, F(44_100.0));
    assert_eq!(data.input, vec![F(-120.0); SPECTRUM_BINS]);
    assert_eq!(SpectrumData::<F>::default().output, vec![F(-120.0); SPECTRUM_BINS]);
    let analyzer = SpectrumAnalyzer::new(F(48_000.0), &cos);
    assert_eq!(analyzer.fall_db, F(40.0 * 256.0 / 48_000.0));
    assert_eq!(SpectrumAnalyzer::new(F(0.0), &cos).fall_db, F(40.0 * 256.0));
    assert_eq!(analyzer.window.len(), SPECTRUM_FFT_SIZE);
    assert_eq!(analyzer.window[0], F(0.0));
    assert_eq!(
        analyzer.window[1000],
        F(0.5 * (1.0 - (consts::TAU * 1000.0 / 4095.0).cos()))
    );
    let sum: f32 = analyzer.window.iter().map(|w| w.0).sum();
    assert_eq!(analyzer.coherent_gain, F(sum / 4096.0));
}

#[test]
fn a_sine_shows_at_its_level() {
    let mut analyzer = SpectrumAnalyzer::new(F(48_000.0), &cos);
    let mut data = SpectrumData::new();
    let mut published = 0;
    for n in 0..SPECTRUM_FFT_SIZE {
        let x = (consts::TAU * 100.0 * n as f32 / SPECTRUM_FFT_SIZE as f32).sin();
        if analyzer.process(F(0.5 * x), F(x), &mut data, &fft, &log10) {
            published += 1;
            assert_eq!((n + 1) % SPECTRUM_HOP, 0);
        }
    }
    assert_eq!(published, SPECTRUM_FFT_SIZE / SPECTRUM_HOP);
    assert!((data.output[100].0).abs() < 0.05, "{:?}", data.output[100]);
    assert!((data.input[100].0 + 6.0206).abs() < 0.05, "{:?}", data.input[100]);
    assert_eq!(data.input, analyzer.smoothed_input);
    assert_eq!(data.output, analyzer.smoothed_output);
}

#[test]
fn the_frame_runs_from_the_oldest_sample_to_the_newest() {
    let mut analyzer = SpectrumAnalyzer::new(F(48_000.0), &cos);
    for n in 0..5000 {
        let due = analyzer.take_in(F(n as f32), F(-(n as f32)));
        assert_eq!(due, (n + 1) % SPECTRUM_HOP == 0);
    }
    let window = analyzer.window.clone();
    let input = analyzer.input_frame(Vec::new());
    let output = analyzer.output_frame(vec![F(1.0); 7]);
    assert_eq!(input.len(), SPECTRUM_FFT_SIZE);
    for i in 0..SPECTRUM_FFT_SIZE {
        let x = (5000 - SPECTRUM_FFT_SIZE + i) as f32;
        assert_eq!(input[i], F(x * window[i].0));
        assert_eq!(output[i], F(-x * window[i].0));
    }
}

#[test]
fn the_transform_sees_the_input_and_then_the_output() {
    let mut analyzer = SpectrumAnalyzer::new(F(48_000.0), &cos);
    let mut data = SpectrumData::new();
    let calls = Cell::new(0);
    let middle = analyzer.window[SPECTRUM_FFT_SIZE - 1 - 100];
    let spy = |frame: Vec<F>| {
        let level = if calls.get() % 2 == 0 { 2.0 } else { 3.0 };
        calls.set(calls.get() + 1);
        assert_eq!(frame.len(), SPECTRUM_FFT_SIZE);
        assert_eq!(frame[SPECTRUM_FFT_SIZE - 1 - 100], F(level * middle.0));
        let mut absolutes = frame;
        absolutes.truncate(SPECTRUM_BINS);
        for a in absolutes.iter_mut() {
            *a = F(level);
        }
        absolutes
    };
    for _ in 0..SPECTRUM_HOP {
        analyzer.process(F(2.0), F(3.0), &mut data, &spy, &log10);
    }
    assert_eq!(calls.get(), 2);
    let norm = 2.0 / (4096.0 * analyzer.coherent_gain.0);
    assert_eq!(data.input[7], F(20.0 * (2.0 * norm).log10()));
    assert_eq!(data.output[7], F(20.0 * (3.0 * norm).log10()));
}

#[test]
fn peaks_rise_at_once_and_fall_slowly() {
    let mut smoothed = vec![F(-50.0); SPECTRUM_BINS];
    let mut bins = vec![F(0.0); SPECTRUM_BINS];
    let mut absolutes = vec![F(0.0); SPECTRUM_BINS];
    absolutes[0] = F(0.5);
    absolutes[1] = F(0.5e-9);
    absolutes[2] = F(0.001585);
    publish_spectrum(&absolutes, &mut smoothed, &mut bins, F(2.0), F(1.5), &log10);
    assert_eq!(smoothed[0], F(0.0));
    assert_eq!(smoothed[1], F(-51.5));
    assert_eq!(smoothed[2], F(20.0 * (0.001585f32 * 2.0).log10()));
    assert_eq!(smoothed[3], F(-51.5));
    assert_eq!(bins, smoothed);
    // A fall that is shorter than the step ends at the level.
    absolutes[0] = F(0.45);
    publish_spectrum(&absolutes, &mut smoothed, &mut bins, F(2.0), F(1.5), &log10);
    assert!((smoothed[0].0 - 20.0 * (0.9f32).log10()).abs() < 1e-5);
}

#[test]
fn entries_beyond_the_bins_are_left_alone() {
    let mut smoothed = vec![F(-50.0); SPECTRUM_BINS + 2];
    let mut bins = vec![F(7.0); SPECTRUM_BINS + 3];
    let absolutes = vec![F(1.0); SPECTRUM_BINS + 1];
    publish_spectrum(&absolutes, &mut smoothed, &mut bins, F(1.0), F(1.5), &log10);
    assert_eq!(smoothed[SPECTRUM_BINS - 1], F(0.0));
    assert_eq!(bins[SPECTRUM_BINS - 1], F(0.0));
    assert_eq!(smoothed[SPECTRUM_BINS..], [F(-50.0); 2]);
    assert_eq!(bins[SPECTRUM_BINS..], [F(7.0); 3]);
}

#[test]
fn samples_stand_in_their_slots() {
    let mut analyzer = SpectrumAnalyzer::new(F(48_000.0), &cos);
    let mut data = SpectrumData::new();
    assert_eq!((analyzer.ring_pos, analyzer.hop_counter), (0, 0));
    for m in 1..=5000usize {
        let due = analyzer.process(F(m as f32), F(-(m as f32)), &mut data, &fft, &log10);
        assert_eq!(due, m % SPECTRUM_HOP == 0);
        assert_eq!(analyzer.ring_pos, m % SPECTRUM_FFT_SIZE);
        assert_eq!(analyzer.hop_counter, m % SPECTRUM_HOP);
        assert_eq!(data.input[0] == F(-120.0), m < SPECTRUM_HOP);
    }
    for j in (5001 - SPECTRUM_FFT_SIZE)..=5000 {
        let slot = (j - 1) % SPECTRUM_FFT_SIZE;
        assert_eq!(analyzer.input_ring[slot], F(j as f32));
        assert_eq!(analyzer.output_ring[slot], F(-(j as f32)));
    }
}

#[test]
fn a_reset_analyzer_is_as_new() {
    let mut used = SpectrumAnalyzer::new(F(48_000.0), &cos);
    let mut used_data = SpectrumData::new();
    for n in 0..777 {
        used.process(F(n as f32), F(1.0), &mut used_data, &fft, &log10);
    }
    used.reset();
    let mut fresh = SpectrumAnalyzer::new(F(48_000.0), &cos);
    let mut fresh_data = SpectrumData::new();
    for n in 0..600 {
        let x = F((n as f32 * 0.1).sin());
        let due = used.process(x, x, &mut used_data, &fft, &log10);
        assert_eq!(fresh.process(x, x, &mut fresh_data, &fft, &log10), due);
        if due {
            assert_eq!(used_data.input, fresh_data.input);
            assert_eq!(used_data.output, fresh_data.output);
        }
    }
}

#[test]
fn the_slot_does_not_matter() {
    let mut early = SpectrumAnalyzer::new(F(48_000.0), &cos);
    let mut late = SpectrumAnalyzer::new(F(48_000.0), &cos);
    for _ in 0..100 {
        late.take_in(F(0.0), F(0.0));
    }
    late.hop_counter = 0;
    let (mut p, mut q) = (SpectrumData::new(), SpectrumData::new());
    for n in 0..SPECTRUM_HOP {
        let x = F((n as f32 * 0.1).sin());
        early.process(x, F(1.0), &mut p, &fft, &log10);
        late.process(x, F(1.0), &mut q, &fft, &log10);
    }
    assert!(early.ring_pos != late.ring_pos);
    assert_eq!(p.input, q.input);
    assert_eq!(p.output, q.output);
}

#[test]
fn a_sine_of_full_level_is_at_zero_db() {
    let mut analyzer = SpectrumAnalyzer::new(F(48_000.0), &cos);
    let mut data = SpectrumData::new();
    for n in 0..SPECTRUM_FFT_SIZE {
        let x = F((consts::TAU * 64.0 * n as f32 / SPECTRUM_FFT_SIZE as f32).sin());
        analyzer.process(x, F(0.5 * x.0), &mut data, &fft, &log10);
    }
    assert!(data.input[64].0.abs() < 0.01);
    assert!((data.output[64].0 + 6.02).abs() < 0.01);
}

#[test]
fn published_spectra_do_not_mix() {
    let mut analyzer = SpectrumAnalyzer::new(F(48_000.0), &cos);
    let mut data = SpectrumData::new();
    let loud = vec![F(4096.0); SPECTRUM_BINS];
    analyzer.publish_input(&loud, &mut data, &log10);
    assert!(data.input[5].0 > 0.0);
    assert_eq!(data.output[5], F(-120.0));
    analyzer.publish_output(&loud, &mut data, &log10);
    assert_eq!(data.output, data.input);
    analyzer.take_in(F(1.0), F(1.0));
    analyzer.reset();
    assert_eq!(analyzer.smoothed_input, vec![F(-120.0); SPECTRUM_BINS]);
    assert_eq!(analyzer.hop_counter, 0);
    assert_eq!(analyzer.input_ring, vec![F(0.0); SPECTRUM_FFT_SIZE]);
}

// ---- plugin ----

fn ready(num_bands: i32, channels: usize) -> MbTransient<F> {
    let mut plugin = MbTransient::new(&circle, &cos);
    assert!(plugin.initialize(F(48_000.0), num_bands, &circle, &cos));
    plugin.prepare(channels, num_bands, F(50.0), &exp);
    plugin
}

#[test]
fn a_new_plugin() {
    let plugin = MbTransient::new(&circle, &cos);
    assert_eq!(plugin.sample_rate, F(44_100.0));
    assert_eq!(plugin.last_num_bands, 4);
    assert_eq!(plugin.channel_states.len(), 0);
    assert_eq!(plugin.last_crossover_freqs.to_vec(), initial_xovers::<F>().to_vec());
    let expected = Crossover::new(F(44_100.0), &floats(&[150.0, 1500.0, 8000.0]), &circle);
    for i in 0..MAX_CROSSOVERS {
        assert!(same_coeffs(&plugin.crossover.ap[i], &expected.ap[i]));
    }
}

#[test]
fn initializing_sets_the_rate() {
    let plugin = ready(3, 2);
    assert_eq!(plugin.sample_rate, F(48_000.0));
    assert_eq!(plugin.spectrum.sample_rate, F(48_000.0));
    assert_eq!(plugin.last_num_bands, 3);
    assert_eq!(plugin.analyzer.fall_db, F(40.0 * 256.0 / 48_000.0));
    let expected = Crossover::new(F(48_000.0), &floats(&[150.0, 1500.0]), &circle);
    for i in 0..MAX_CROSSOVERS {
        assert!(same_coeffs(&plugin.crossover.lp[i][0], &expected.lp[i][0]));
    }
    assert_eq!(plugin.channel_states.len(), 2);
    let coef = F((-1.0f32 / (48_000.0 * 0.05)).exp());
    assert_eq!(plugin.channel_states[1].shapers[5].release_coef, coef);
}

#[test]
fn a_change_of_bands_or_channels_resets() {
    let mut plugin = ready(4, 1);
    let freqs = floats(&[150.0, 1500.0, 8000.0]);
    let shapes = floats(&[0.0, 0.0, 0.0, 0.0]);
    let mut samples = floats(&[0.5]);
    plugin.process_frame(
        &mut samples, &freqs, &shapes, F(0.0), &circle, &db_to_gain, &fft, &log10,
    );
    assert_eq!(plugin.analyzer.hop_counter, 1);
    // Nothing has changed: nothing is forgotten.
    let env = plugin.channel_states[0].shapers[0].env;
    plugin.prepare(1, 4, F(20.0), &exp);
    assert_eq!(plugin.channel_states[0].shapers[0].env, env);
    assert_eq!(plugin.analyzer.hop_counter, 1);
    let coef = F((-1.0f32 / (48_000.0 * 0.02)).exp());
    assert_eq!(plugin.channel_states[0].shapers[0].release_coef, coef);
    // Another number of bands.
    plugin.prepare(1, 3, F(20.0), &exp);
    assert_eq!(plugin.channel_states[0].shapers[0].env, F(0.0));
    assert_eq!(plugin.analyzer.hop_counter, 0);
    assert_eq!(plugin.last_num_bands, 3);
    // Another number of channels.
    plugin.analyzer.take_in(F(1.0), F(1.0));
    plugin.prepare(2, 3, F(20.0), &exp);
    assert_eq!(plugin.channel_states.len(), 2);
    assert_eq!(plugin.analyzer.hop_counter, 0);
    plugin.prepare(0, 3, F(20.0), &exp);
    assert_eq!(plugin.channel_states.len(), 0);
}

#[test]
fn retuning_is_due_when_a_frequency_moves() {
    let mut plugin = ready(4, 1);
    assert!(!plugin.retune_due(&floats(&[150.0, 1500.0, 8000.0])));
    assert!(!plugin.retune_due(&floats(&[150.0, 1500.0])));
    assert!(plugin.retune_due(&floats(&[150.0, 1500.0, 8001.0])));
    // The crossover is built for three frequencies so far.
    assert!(plugin.retune_due(&floats(&[150.0, 1500.0, 8000.0, 12_000.0])));
    plugin.retune(&floats(&[200.0, 2000.0]), &circle);
    let last = floats(&[200.0, 2000.0, 8000.0, 12_000.0, 16_000.0]);
    assert_eq!(plugin.last_crossover_freqs.to_vec(), last);
    assert!(!plugin.retune_due(&floats(&[200.0, 2000.0])));
    assert!(plugin.retune_due(&floats(&[200.0, 2000.0, 8000.0])));
    assert_eq!(plugin.tuned, 2);
    let expected = Crossover::new(F(48_000.0), &floats(&[200.0, 2000.0]), &circle);
    assert!(same_coeffs(&plugin.crossover.hp[1][1], &expected.hp[1][1]));
    assert!(same_coeffs(&plugin.crossover.hp[2][1], &BiquadCoeffs::identity()));
}

#[test]
fn a_frame_retunes_the_crossover() {
    let mut plugin = ready(3, 1);
    let freqs = floats(&[300.0, 3000.0]);
    let shapes = floats(&[0.0, 0.0, 0.0]);
    let mut samples = floats(&[1.0]);
    plugin.process_frame(
        &mut samples, &freqs, &shapes, F(0.0), &circle, &db_to_gain, &fft, &log10,
    );
    let expected = Crossover::new(F(48_000.0), &freqs, &circle);
    assert!(same_coeffs(&plugin.crossover.ap[1], &expected.ap[1]));
    assert_eq!(plugin.last_crossover_freqs[0], F(300.0));
}

#[test]
fn a_neutral_plugin_is_flat() {
    for num_bands in 2..=MAX_BANDS {
        let mut plugin = ready(num_bands as i32, 2);
        let freqs = floats(&[150.0, 1500.0, 8000.0, 12_000.0, 16_000.0][..num_bands - 1]);
        let shapes = vec![F(0.0); num_bands];
        let mut sections = [BiquadState::default(); MAX_CROSSOVERS];
        let gain = db_to_gain(F(-6.0));
        for n in 0..2000 {
            let x = F((n as f32 * 0.37).sin());
            let mut samples = vec![x, F(0.0)];
            plugin.process_frame(
                &mut samples, &freqs, &shapes, F(-6.0), &circle, &db_to_gain, &fft, &log10,
            );
            let mut y = x;
            for i in 0..num_bands - 1 {
                let ap = BiquadCoeffs::allpass(F(48_000.0), freqs[i], &circle);
                y = process_biquad(&ap, &mut sections[i], y);
            }
            assert!((samples[0].0 - y.0 * gain.0).abs() < 1e-3);
            assert_eq!(samples[1], F(0.0));
        }
    }
}

/// Feeds `plugin`, from rest, with neutral bands and holds it against the all-pass sections alone.
fn check_flat(plugin: &mut MbTransient<F>, freqs: &[F]) {
    plugin.reset();
    let shapes = vec![F(0.0); freqs.len() + 1];
    let mut sections = [BiquadState::default(); MAX_CROSSOVERS];
    let gain = db_to_gain(F(-6.0));
    for n in 0..2000 {
        let x = F((n as f32 * 0.91).sin() + (n as f32 * 0.05).sin());
        let mut samples = vec![x];
        plugin.process_frame(
            &mut samples, freqs, &shapes, F(-6.0), &circle, &db_to_gain, &fft, &log10,
        );
        let mut y = x;
        for i in 0..freqs.len() {
            let ap = BiquadCoeffs::allpass(F(48_000.0), freqs[i], &circle);
            y = process_biquad(&ap, &mut sections[i], y);
        }
        assert!((samples[0].0 - y.0 * gain.0).abs() < 2e-3, "{} bands", freqs.len() + 1);
    }
}

#[test]
fn bands_recombine_flat_when_their_number_grows() {
    let all = floats(&[150.0, 1500.0, 8000.0, 12_000.0, 16_000.0]);
    for from in 2..=MAX_BANDS {
        for to in 2..=MAX_BANDS {
            let mut plugin = ready(from as i32, 1);
            check_flat(&mut plugin, &all[..from - 1]);
            plugin.prepare(1, to as i32, F(50.0), &exp);
            check_flat(&mut plugin, &all[..to - 1]);
        }
    }
}

#[test]
fn a_crossover_that_was_rebuilt_for_fewer_bands_comes_back() {
    let mut plugin = ready(4, 1);
    plugin.prepare(1, 3, F(50.0), &exp);
    check_flat(&mut plugin, &floats(&[200.0, 1500.0]));
    assert_eq!(plugin.tuned, 2);
    plugin.prepare(1, 4, F(50.0), &exp);
    check_flat(&mut plugin, &floats(&[200.0, 1500.0, 8000.0]));
    assert_eq!(plugin.tuned, 3);
}

#[test]
fn half_a_hop_publishes_nothing() {
    let mut plugin = MbTransient::new(&circle, &cos);
    plugin.prepare(2, 4, F(50.0), &exp);
    let freqs = floats(&[150.0, 1500.0, 8000.0]);
    let shapes = vec![F(0.0); 4];
    for _ in 0..128 {
        let mut samples = floats(&[1.0, 1.0]);
        assert!(!plugin.process_frame(
            &mut samples, &freqs, &shapes, F(-6.0), &circle, &db_to_gain, &fft, &log10,
        ));
    }
    assert_eq!(plugin.spectrum.input, vec![F(-120.0); SPECTRUM_BINS]);
    assert_eq!(plugin.spectrum.output, vec![F(-120.0); SPECTRUM_BINS]);
    assert_eq!((plugin.analyzer.ring_pos, plugin.analyzer.hop_counter), (128, 128));
    plugin.reset();
    assert_eq!((plugin.analyzer.ring_pos, plugin.analyzer.hop_counter), (0, 0));
}

#[test]
fn an_update_is_as_good_as_a_new_crossover() {
    let freqs = floats(&[200.0, 2000.0]);
    let made = Crossover::new(F(48_000.0), &freqs, &circle);
    let mut moved = Crossover::new(F(44_100.0), &floats(&[99.0, 1.0, 5000.0, 7000.0]), &circle);
    moved.update(F(48_000.0), &freqs, &circle);
    for i in 0..MAX_CROSSOVERS {
        for k in 0..2 {
            assert!(same_coeffs(&moved.lp[i][k], &made.lp[i][k]));
            assert!(same_coeffs(&moved.hp[i][k], &made.hp[i][k]));
        }
        assert!(same_coeffs(&moved.ap[i], &made.ap[i]));
    }
}

#[test]
fn channels_do_not_disturb_each_other() {
    let freqs = floats(&[200.0, 2000.0]);
    let shapes = floats(&[-0.5, 0.0, 0.7]);
    let mut a = ready(3, 2);
    let mut b = ready(3, 2);
    for n in 0..600 {
        let x = F((n as f32 * 0.3).sin());
        let mut left = vec![x, F(0.0)];
        let mut right = vec![x, F((n as f32).cos() * 9.0)];
        a.process_frame(&mut left, &freqs, &shapes, F(0.0), &circle, &db_to_gain, &fft, &log10);
        b.process_frame(&mut right, &freqs, &shapes, F(0.0), &circle, &db_to_gain, &fft, &log10);
        assert_eq!(left[0], right[0]);
    }
    assert_eq!(a.channel_states[0].shapers[1].env, b.channel_states[0].shapers[1].env);
}

#[test]
fn the_block_size_does_not_matter() {
    let freqs = floats(&[200.0, 2000.0]);
    let shapes = floats(&[-0.5, 0.0, 0.7]);
    let mut whole = ready(3, 1);
    let mut blocks = ready(3, 1);
    for n in 0..1000 {
        if n % 37 == 0 {
            blocks.prepare(1, 3, F(50.0), &exp);
        }
        let x = F((n as f32 * 0.3).sin());
        let (mut p, mut q) = (vec![x], vec![x]);
        whole.process_frame(&mut p, &freqs, &shapes, F(0.0), &circle, &db_to_gain, &fft, &log10);
        blocks.process_frame(&mut q, &freqs, &shapes, F(0.0), &circle, &db_to_gain, &fft, &log10);
        assert_eq!(p, q);
    }
    assert_eq!(whole.spectrum.output, blocks.spectrum.output);
    assert_eq!(whole.analyzer.ring_pos, blocks.analyzer.ring_pos);
}

#[test]
fn a_frame_feeds_the_analyzer_in_mono() {
    let mut plugin = ready(2, 2);
    let freqs = floats(&[150.0]);
    let shapes = floats(&[0.0, 0.0]);
    let mut samples = floats(&[1.0, 0.5]);
    let due = plugin.process_frame(
        &mut samples, &freqs, &shapes, F(0.0), &circle, &db_to_gain, &fft, &log10,
    );
    assert!(!due);
    assert_eq!(plugin.analyzer.input_ring[0], F(0.75));
    assert_eq!(plugin.analyzer.output_ring[0], F((samples[0].0 + samples[1].0) * 0.5));
    for n in 1..SPECTRUM_HOP {
        let mut samples = floats(&[1.0, 0.5]);
        let due = plugin.process_frame(
            &mut samples, &freqs, &shapes, F(0.0), &circle, &db_to_gain, &fft, &log10,
        );
        assert_eq!(due, n == SPECTRUM_HOP - 1);
    }
    assert!(plugin.spectrum.output[0].0 > -120.0);
    // Without channels nothing is heard.
    plugin.prepare(0, 2, F(50.0), &exp);
    let mut none = Vec::new();
    let due = plugin.process_frame(
        &mut none, &freqs, &shapes, F(0.0), &circle, &db_to_gain, &fft, &log10,
    );
    assert!(!due);
    assert_eq!(plugin.analyzer.hop_counter, 0);
}

#[test]
fn gains_for_shapes() {
    let gains = Gains::new(&floats(&[0.0, -1.0, 0.5]), &db_to_gain);
    assert_eq!(gains.attack[0], F(1.0));
    assert_eq!(gains.sustain[0], F(1.0));
    assert_eq!(gains.attack[1], db_to_gain(F(-45.0)));
    assert_eq!(gains.sustain[1], F(1.0));
    assert_eq!(gains.attack[2], F(1.0));
    assert_eq!(gains.sustain[2], db_to_gain(F(-22.5)));
    assert_eq!(gains.attack[3], F(0.0));
    assert_eq!(gains.sustain[5], F(0.0));
}

#[test]
fn shapes_cut_one_side() {
    assert_eq!(shape_db(F(0.0)), (F(0.0), F(0.0)));
    assert_eq!(shape_db(F(-1.0)), (F(-45.0), F(0.0)));
    assert_eq!(shape_db(F(1.0)), (F(0.0), F(-45.0)));
    assert_eq!(shape_db(F(0.2)), (F(0.0), F(-0.2 * 45.0)));
}

#[test]
fn a_channel_adds_its_shaped_bands_up() {
    let crossover = Crossover::new(F(48_000.0), &floats(&[1000.0]), &circle);
    let mut channel = ChannelState::default();
    let d = decays(F(48_000.0), F(50.0), &exp);
    channel.smooth(d);
    let gains = Gains::new(&floats(&[-1.0, 1.0]), &db_to_gain);
    let mut state = CrossoverState::default();
    let mut low = TransientShaper::new();
    let mut high = TransientShaper::new();
    low.smooth(d);
    high.smooth(d);
    for n in 0..300 {
        let x = F((n as f32 * 0.2).sin());
        let bands = crossover.process(&mut state, x, 2);
        let wet = F(0.0)
            .add(low.process(bands[0], gains.attack[0], gains.sustain[0]))
            .add(high.process(bands[1], gains.attack[1], gains.sustain[1]));
        assert_eq!(channel.process(&crossover, x, 2, &gains), wet);
    }
    channel.reset();
    let mut fresh = ChannelState::default();
    fresh.smooth(d);
    let x = F(0.7);
    assert_eq!(
        channel.process(&crossover, x, 2, &gains),
        fresh.process(&crossover, x, 2, &gains)
    );
}

#[test]
fn sending_sums_what_comes_in_and_goes_out() {
    let mut plugin = ready(2, 2);
    let gains = Gains::new(&floats(&[0.0, 0.0]), &db_to_gain);
    let mut samples = floats(&[0.25, 0.5]);
    let (mono_in, mono_out) = plugin.send(&mut samples, 2, &gains, F(2.0));
    assert_eq!(mono_in, F(0.75));
    assert_eq!(mono_out, samples[0].add(samples[1]));
    assert_eq!(plugin.analyzer.hop_counter, 0);
    plugin.reset();
    assert_eq!(plugin.channel_states[0].shapers[0].env, F(0.0));
    assert_eq!(plugin.crossover.ap[0].a1, ready(2, 2).crossover.ap[0].a1);
}
