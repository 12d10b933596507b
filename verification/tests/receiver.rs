//! From samples to frames, windows and spectra: the arithmetic on samples is
//! here, what is decided about them in the library.

use rand::rngs::StdRng;
use rand::SeedableRng;
use rand_distr::{Distribution, Normal};
use rustfft::num_complex::Complex32;
use rustfft::FftPlanner;
use spectrum_monitor::ais::demod::{AisReceiver, ReceivedFrame};
use spectrum_monitor::ais::gmsk::pulse_span;
use spectrum_monitor::ais::message::{AisMessage, PositionReport, StaticData};
use spectrum_monitor::ais::{modulate, Channel};
use spectrum_monitor::burst::BurstClock;
use spectrum_monitor::classify::{
    extract as best_window, window_count, window_start, CHANNELS, WINDOW,
};
use spectrum_monitor::dsp::{is_valid_size, segments, shifted_bin, Decimator, Detector};
use spectrum_monitor::order::order_key;
use std::f64::consts::{PI, TAU};

const FS: f64 = 2.4e6;
const FC: f64 = 162.0e6;
const BAUD: f64 = 9600.0;
const DEVIATION_HZ: f64 = 2400.0;

struct Oscillator {
    rot: Complex32,
    step: Complex32,
}

impl Oscillator {
    fn new(freq_hz: f64, sample_rate: f64) -> Self {
        let (sin, cos) = (TAU * freq_hz / sample_rate).sin_cos();
        Self { rot: Complex32::new(1.0, 0.0), step: Complex32::new(cos as f32, sin as f32) }
    }

    fn sample(&mut self) -> Complex32 {
        let v = self.rot;
        self.rot *= self.step;
        self.rot *= 1.5 - 0.5 * self.rot.norm_sqr();
        v
    }
}

fn lowpass(len: usize, cutoff: f64) -> Vec<f32> {
    let m = (len - 1) as f64;
    let taps: Vec<f64> = (0..len)
        .map(|i| {
            let x = i as f64 - m / 2.0;
            let sinc =
                if x == 0.0 { 2.0 * cutoff } else { (TAU * cutoff * x).sin() / (PI * x) };
            let w = 0.42 - 0.5 * (TAU * i as f64 / m).cos() + 0.08 * (2.0 * TAU * i as f64 / m).cos();
            sinc * w
        })
        .collect();
    let sum: f64 = taps.iter().sum();
    taps.iter().map(|t| (t / sum) as f32).collect()
}

struct Filter {
    taps: Vec<f32>,
    window: Decimator<Complex32>,
}

impl Filter {
    fn new(taps: Vec<f32>, factor: usize) -> Self {
        Self { window: Decimator::new(Complex32::ZERO, taps.len(), factor), taps }
    }

    fn push(&mut self, x: Complex32) -> Option<Complex32> {
        if !self.window.push(x) {
            return None;
        }
        Some(self.window.window().iter().zip(&self.taps).map(|(x, t)| x * t).sum())
    }
}

/// Mixes a signal down and decimates it to 48 kHz.
struct Downconverter {
    mixer: Oscillator,
    stage1: Filter,
    stage2: Filter,
}

impl Downconverter {
    fn new(offset_hz: f64, cutoff_hz: f64) -> Self {
        Self {
            mixer: Oscillator::new(-offset_hz, FS),
            stage1: Filter::new(lowpass(64, 60_000.0 / FS), 10),
            stage2: Filter::new(lowpass(96, cutoff_hz / 240_000.0), 5),
        }
    }

    fn process(&mut self, samples: &[Complex32]) -> Vec<Complex32> {
        let mut out = Vec::new();
        for &s in samples {
            if let Some(y) = self.stage1.push(s * self.mixer.sample()) {
                out.extend(self.stage2.push(y));
            }
        }
        out
    }
}

/// Discriminator and clock of one channel.
struct Front {
    channel: Channel,
    down: Downconverter,
    prev: Complex32,
    clock: f32,
}

impl Front {
    fn new(channel: Channel) -> Self {
        let offset = f64::from(channel.freq_hz()) - FC;
        Self {
            channel,
            down: Downconverter::new(offset, 10_000.0),
            prev: Complex32::ZERO,
            clock: 0.0,
        }
    }

    fn levels(&mut self, samples: &[Complex32], rx: &mut AisReceiver) -> Vec<bool> {
        let mut out = Vec::new();
        for x in self.down.process(samples) {
            let f = (x * self.prev.conj()).arg();
            self.prev = x;
            let sign = f > 0.0;
            self.clock += 1.0 / 5.0;
            if rx.crossing(self.channel, sign) {
                self.clock -= (self.clock - 0.5) * 0.3;
            }
            if self.clock >= 1.0 {
                self.clock -= 1.0;
                out.push(sign);
            }
        }
        out
    }
}

fn position() -> AisMessage {
    AisMessage::Position(PositionReport {
        msg_type: 1,
        mmsi: 211_234_560,
        nav_status: 0,
        sog: Some(123),
        accurate: true,
        lon: Some((10.1834f64 * 600_000.0).round() as i64),
        lat: Some((54.3721f64 * 600_000.0).round() as i64),
        cog: Some(175),
        heading: Some(18),
        second: 42,
    })
}

fn static_data() -> AisMessage {
    AisMessage::Static(StaticData {
        mmsi: 211_234_560,
        imo: 9_123_456,
        callsign: "DABC".into(),
        name: "FOERDE EXPRESS".into(),
        ship_type: 60,
        dims: [30, 40, 8, 8],
        draught: 42,
        destination: "KIEL".into(),
    })
}

fn erf(x: f64) -> f64 {
    let t = 1.0 / (1.0 + 0.3275911 * x.abs());
    let poly = t
        * (0.254829592
            + t * (-0.284496736 + t * (1.421413741 + t * (-1.453152027 + t * 1.061405429))));
    (1.0 - poly * (-x * x).exp()).copysign(x)
}

fn phi(x: f64) -> f64 {
    0.5 * (1.0 + erf(x / std::f64::consts::SQRT_2))
}

/// Instantaneous frequency of levels behind the Gaussian filter.
fn frequency(levels: &[bool], sps: usize) -> Vec<f32> {
    let sigma = 2f64.ln().sqrt() / (TAU * 0.4);
    let pulse: Vec<f32> = (0..5 * sps)
        .map(|m| {
            let t = (m as f64 + 0.5) / sps as f64 - 2.5;
            ((phi((t + 0.5) / sigma) - phi((t - 0.5) / sigma)) * DEVIATION_HZ) as f32
        })
        .collect();
    let len = levels.len() * sps;
    let mut freq = vec![0.0f32; len];
    for (k, &level) in levels.iter().enumerate() {
        let sign = if level { 1.0 } else { -1.0 };
        let span = pulse_span(k, sps, len);
        for n in span.first..span.end {
            freq[n] += sign * pulse[span.offset + n - span.first];
        }
    }
    freq
}

#[test]
fn dauerpegel_erreicht_vollen_hub() {
    let f = frequency(&[true; 8], 10);
    assert!((f[40] as f64 - DEVIATION_HZ).abs() < 1.0);
}

#[test]
fn wechselfolge_bleibt_unter_dem_hub() {
    // The Gaussian filter blurs fast changes: no bit reaches the full deviation.
    let levels: Vec<bool> = (0..16).map(|i| i % 2 == 0).collect();
    let f = frequency(&levels, 10);
    let peak = f[40..120].iter().fold(0f32, |m, v| m.max(v.abs()));
    assert!(peak > 0.5 * DEVIATION_HZ as f32 && peak < 0.9 * DEVIATION_HZ as f32, "{peak}");
}

fn transmit(
    signal: &mut [Complex32],
    start: usize,
    payload: &[bool],
    ch: Channel,
    freq_error: f64,
    amp: f32,
) {
    let freq = frequency(&modulate(payload), (FS / BAUD) as usize);
    let mut phase = 0.3f64;
    for (s, f) in signal[start..].iter_mut().zip(freq) {
        phase += TAU * (f64::from(ch.freq_hz()) - FC + freq_error + f as f64) / FS;
        *s += Complex32::from_polar(amp, phase as f32);
    }
}

fn noise(len: usize, sigma: f32, seed: u64) -> Vec<Complex32> {
    let mut rng = StdRng::seed_from_u64(seed);
    let n = Normal::new(0.0, sigma).unwrap();
    (0..len).map(|_| Complex32::new(n.sample(&mut rng), n.sample(&mut rng))).collect()
}

fn receive(signal: &[Complex32]) -> Vec<ReceivedFrame> {
    let mut rx = AisReceiver::new();
    let (mut a, mut b) = (Front::new(Channel::A), Front::new(Channel::B));
    // In blocks as in the acquisition, so that states carry over their limits.
    signal
        .chunks(96_000)
        .flat_map(|c| {
            let la = a.levels(c, &mut rx);
            let lb = b.levels(c, &mut rx);
            rx.process(&la, &lb)
        })
        .collect()
}

#[test]
fn dekodiert_beide_kanaele_gleichzeitig() {
    let mut s = noise(240_000, 0.01, 1);
    let (a, b) = (position().encode(), static_data().encode());
    transmit(&mut s, 20_000, &a, Channel::A, 0.0, 0.1);
    transmit(&mut s, 50_123, &b, Channel::B, 0.0, 0.05);
    let mut got = receive(&s);
    got.sort_by_key(|f| f.channel);
    assert_eq!(
        got,
        vec![
            ReceivedFrame { channel: Channel::A, payload: a },
            ReceivedFrame { channel: Channel::B, payload: b },
        ]
    );
}

#[test]
fn verkraftet_frequenzfehler_eines_billigen_empfaengers() {
    // 3 ppm at 162 MHz are just below 500 Hz.
    let mut s = noise(120_000, 0.01, 2);
    let a = position().encode();
    transmit(&mut s, 10_000, &a, Channel::B, 486.0, 0.1);
    assert_eq!(receive(&s).len(), 1);
}

#[test]
fn im_reinen_rauschen_entsteht_kein_rahmen() {
    assert!(receive(&noise(2_400_000, 0.05, 3)).is_empty());
}

#[test]
fn schwaches_signal_wird_noch_dekodiert() {
    // Of the noise over 2.4 MHz about 1/120 is left in the channel of 20 kHz.
    let mut s = noise(120_000, 0.1, 4);
    transmit(&mut s, 30_000, &position().encode(), Channel::A, 0.0, 0.1);
    assert_eq!(receive(&s).len(), 1);
}

/// The window with the most energy around a frequency.
fn extract(block: &[Complex32], offset_hz: f64) -> Option<Vec<Complex32>> {
    let narrow = Downconverter::new(offset_hz, 16_000.0).process(block);
    let energies: Vec<i64> = (0..window_count(narrow.len()))
        .map(|k| {
            let start = window_start(narrow.len(), k);
            let e: f64 =
                narrow[start..start + WINDOW].iter().map(|v| f64::from(v.norm_sqr())).sum();
            order_key(e.to_bits())
        })
        .collect();
    let start = best_window(narrow.len(), &energies)?;
    Some(narrow[start..start + WINDOW].to_vec())
}

fn features(x: &[Complex32]) -> Vec<f32> {
    let hz_per_rad = (48_000.0 / TAU) as f32;
    let rms = (x.iter().map(|v| v.norm_sqr()).sum::<f32>() / x.len() as f32).sqrt().max(1e-12);
    let mut out = Vec::with_capacity(CHANNELS * x.len());
    out.extend(x.iter().map(|v| v.norm() / rms));
    out.push(0.0);
    out.extend(x.windows(2).map(|w| (w[1] * w[0].conj()).arg() * hz_per_rad / 5_000.0));
    let n = x.len();
    let mut buf: Vec<Complex32> = x
        .iter()
        .enumerate()
        .map(|(i, v)| v * (0.5 - 0.5 * (std::f32::consts::TAU * i as f32 / n as f32).cos()))
        .collect();
    FftPlanner::new().plan_fft_forward(n).process(&mut buf);
    let db: Vec<f32> =
        (0..n).map(|i| 10.0 * (buf[shifted_bin(i, n)].norm_sqr() + 1e-12).log10()).collect();
    let mean = db.iter().sum::<f32>() / n as f32;
    let std =
        (db.iter().map(|v| (v - mean).powi(2)).sum::<f32>() / n as f32).sqrt().max(1e-6);
    out.extend(db.iter().map(|v| (v - mean) / std));
    out
}

#[test]
fn ausschnitt_landet_bei_null_hertz() {
    let mut osc = Oscillator::new(-450_000.0 + 2_000.0, FS);
    let block: Vec<Complex32> = (0..96_000).map(|_| osc.sample()).collect();
    let x = extract(&block, -450_000.0).unwrap();
    // A tone at +2 kHz is left, 2/5 of the frequency scale.
    let f = features(&x);
    let inst = &f[WINDOW + 1..2 * WINDOW];
    let mean = inst.iter().sum::<f32>() / inst.len() as f32;
    assert!((mean - 0.4).abs() < 1e-3, "{mean}");
    // The magnitude is normalised to one.
    assert!(f[..WINDOW].iter().all(|a| (a - 1.0).abs() < 0.01));
    // The spectrum has its peak at +2 kHz, 2/48 of the window right of the middle.
    let spec = &f[2 * WINDOW..];
    let peak = spec.iter().enumerate().max_by(|a, b| a.1.total_cmp(b.1)).unwrap().0;
    assert_eq!(peak, WINDOW / 2 + (2_000.0 / 48_000.0 * WINDOW as f64).round() as usize);
}

#[test]
fn ausschnitt_findet_den_burst() {
    let mut block = vec![Complex32::ZERO; 96_000];
    // 10 ms of tone from sample 60 000 on, in the middle of the block.
    for s in &mut block[60_000..84_000] {
        *s = Complex32::new(1.0, 0.0);
    }
    let x = extract(&block, 0.0).unwrap();
    let strong = x.iter().filter(|v| v.norm() > 0.5).count();
    // 24 000 samples at 2.4 MHz are 480 samples at 48 kHz, all in the window.
    assert!(strong >= 470, "{strong}");
}

/// Centred spectrum in dBFS.
fn estimate(n: usize, samples: &[Complex32], detector: Detector) -> Vec<f32> {
    assert!(is_valid_size(n));
    let count = segments(samples.len(), n);
    let window: Vec<f32> =
        (0..n).map(|i| 0.5 - 0.5 * (std::f32::consts::TAU * i as f32 / n as f32).cos()).collect();
    let sum: f32 = window.iter().sum();
    let norm = 1.0 / (sum * sum);
    let fft = FftPlanner::new().plan_fft_forward(n);
    let mut acc = vec![0.0f32; n];
    for seg in samples.chunks_exact(n) {
        let mut buf: Vec<Complex32> = seg.iter().zip(&window).map(|(s, w)| s * w).collect();
        fft.process(&mut buf);
        for (a, b) in acc.iter_mut().zip(&buf) {
            let p = b.norm_sqr() * norm;
            match detector {
                Detector::Avg => *a += p / count as f32,
                Detector::Peak => *a = a.max(p),
            }
        }
    }
    (0..n).map(|i| 10.0 * (acc[shifted_bin(i, n)] + 1e-20).log10()).collect()
}

fn tone(n: usize, len: usize, bin: f32, amp: f32) -> Vec<Complex32> {
    (0..len)
        .map(|i| Complex32::from_polar(amp, std::f32::consts::TAU * bin * i as f32 / n as f32))
        .collect()
}

fn argmax(v: &[f32]) -> usize {
    v.iter().enumerate().max_by(|a, b| a.1.total_cmp(b.1)).unwrap().0
}

#[test]
fn positiver_ton_landet_rechts_der_mitte() {
    let n = 1024;
    let spec = estimate(n, &tone(n, 4 * n, 100.0, 1.0), Detector::Avg);
    assert_eq!(argmax(&spec), n / 2 + 100);
}

#[test]
fn negativer_ton_landet_links_der_mitte() {
    let n = 1024;
    let spec = estimate(n, &tone(n, n, -200.0, 1.0), Detector::Avg);
    assert_eq!(argmax(&spec), n / 2 - 200);
}

#[test]
fn pegel_ist_in_dbfs_kalibriert() {
    let n = 2048;
    let spec = estimate(n, &tone(n, n, 37.0, 0.1), Detector::Avg);
    let peak = spec[n / 2 + 37];
    assert!((peak - -20.0).abs() < 0.05, "expected -20 dBFS, measured {peak}");
}

#[test]
fn peak_detektor_haelt_kurzen_burst() {
    let n = 256;
    let mut s = vec![Complex32::ZERO; 8 * n];
    s[..n].copy_from_slice(&tone(n, n, 10.0, 1.0));
    let avg = estimate(n, &s, Detector::Avg)[n / 2 + 10];
    let peak = estimate(n, &s, Detector::Peak)[n / 2 + 10];
    // One segment of eight: the mean costs 10 log10(8), about 9 dB.
    assert!((peak - avg - 9.03).abs() < 0.05);
}

#[test]
fn burst_beginnt_nach_verzoegerung_und_endet() {
    let mut m = BurstClock::burst(100, 10, 5);
    let v: Vec<f32> =
        (0..130).map(|_| m.next().map_or(0.0, |s| s.edge as f32 / m.ramp as f32)).collect();
    assert!(v[..10].iter().all(|&a| a == 0.0));
    assert!((v[60] - 1.0).abs() < 1e-6);
    assert!(v[110..].iter().all(|&a| a == 0.0));
}

#[test]
fn sizes_are_powers_of_two_from_sixteen_on() {
    assert!(!is_valid_size(8) && is_valid_size(16) && !is_valid_size(24) && is_valid_size(2048));
    assert!(!is_valid_size(0));
    assert_eq!((segments(1023, 256), segments(1024, 256)), (3, 4));
    assert_eq!((0..5).map(|i| shifted_bin(i, 5)).collect::<Vec<_>>(), vec![2, 3, 4, 0, 1]);
    assert_eq!((Detector::Peak.name(), Detector::Avg.name()), ("Peak", "Avg"));
}

#[test]
fn decimator_shows_the_last_samples() {
    let mut d = Decimator::new(0u8, 3, 2);
    let due: Vec<bool> = [1, 2, 3, 4, 5].iter().map(|&x| d.push(x)).collect();
    assert_eq!(due, vec![false, true, false, true, false]);
    assert_eq!(d.window().to_vec(), vec![3, 4, 5]);
}

#[test]
fn pulses_are_cut_at_the_ends() {
    let s = pulse_span(0, 10, 80);
    assert_eq!((s.first, s.end, s.offset), (0, 30, 20));
    let s = pulse_span(4, 10, 80);
    assert_eq!((s.first, s.end, s.offset), (20, 70, 0));
    let s = pulse_span(7, 10, 80);
    assert_eq!((s.first, s.end, s.offset), (50, 80, 0));
}
