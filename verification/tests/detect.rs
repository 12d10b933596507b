//! Detection and tracking, with the measurements as they come from a spectrum.

use rand::rngs::StdRng;
use rand::{RngExt, SeedableRng};
use spectrum_monitor::detect::{cfar as merge, training_cells, CfarConfig, Span};
use spectrum_monitor::order::{
    ascending_order, descending_order, key_bits, key_bits_32, last_max, order_key, order_key_32,
};
use spectrum_monitor::track::{Age, Detection, Near, TrackEvent, Tracker};

fn key(v: f64) -> i64 {
    order_key(v.to_bits())
}

fn number(k: i64) -> f64 {
    f64::from_bits(key_bits(k))
}

fn key32(v: f32) -> i64 {
    order_key_32(v.to_bits())
}

fn number32(k: i64) -> f32 {
    f32::from_bits(key_bits_32(k))
}

/// A detection with its measurements as numbers.
struct Found {
    offset_hz: f64,
    bandwidth_hz: f64,
    peak_db: f32,
    noise_db: f32,
    first_bin: usize,
    last_bin: usize,
}

impl Found {
    fn snr_db(&self) -> f32 {
        self.peak_db - self.noise_db
    }

    fn keys(&self) -> Detection {
        Detection {
            offset_hz: key(self.offset_hz),
            bandwidth_hz: key(self.bandwidth_hz),
            peak_db: key32(self.peak_db),
            snr_db: key32(self.snr_db()),
            first_bin: self.first_bin,
            last_bin: self.last_bin,
        }
    }
}

/// Levels and noise of a spectrum, and the signals in it.
fn cfar(spectrum_db: &[f32], bin_hz: f64, cfg: &CfarConfig) -> Vec<Found> {
    let n = spectrum_db.len();
    let lin: Vec<f64> = spectrum_db.iter().map(|&d| 10f64.powf(f64::from(d) / 10.0)).collect();
    let factor = 10f64.powf(f64::from(number32(cfg.threshold_db)) / 10.0);
    let noise: Vec<f64> = (0..n)
        .map(|i| {
            let c = training_cells(i, n, cfg);
            let sum: f64 = lin[c.left_from..c.left_to].iter().sum::<f64>()
                + lin[c.right_from..c.right_to].iter().sum::<f64>();
            sum / c.count().max(1) as f64
        })
        .collect();
    let hit: Vec<bool> = (0..n).map(|i| lin[i] > factor * noise[i]).collect();
    let levels: Vec<i64> = lin.iter().map(|&v| key(v)).collect();
    merge(&hit, &levels, cfg)
        .iter()
        .map(|s| {
            let (mut w, mut wf) = (0.0, 0.0);
            for k in s.first..=s.last {
                let p = (lin[k] - noise[k]).max(0.0);
                w += p;
                wf += p * k as f64;
            }
            let center = if w > 0.0 { wf / w } else { s.peak as f64 };
            Found {
                offset_hz: (center - (n / 2) as f64) * bin_hz,
                bandwidth_hz: (s.last - s.first + 1) as f64 * bin_hz,
                peak_db: spectrum_db[s.peak],
                noise_db: (10.0 * noise[s.peak].log10()) as f32,
                first_bin: s.first,
                last_bin: s.last,
            }
        })
        .collect()
}

/// Noise floor at -80 dB with 1.5 dB of ripple, as behind the peak detector.
fn floor(n: usize, seed: u64) -> Vec<f32> {
    let mut rng = StdRng::seed_from_u64(seed);
    (0..n).map(|_| -80.0 + rng.random_range(-1.5..1.5)).collect()
}

fn add(spec: &mut [f32], center: usize, half_width: usize, level: f32) {
    for v in &mut spec[center - half_width..=center + half_width] {
        *v = v.max(level);
    }
}

#[test]
fn rauschen_allein_loest_nichts_aus() {
    for seed in 0..50 {
        assert!(cfar(&floor(2048, seed), 1000.0, &CfarConfig::default()).is_empty());
    }
}

#[test]
fn findet_signale_mit_frequenz_und_breite() {
    let mut s = floor(2048, 1);
    add(&mut s, 1024 + 300, 0, -40.0); // carrier
    add(&mut s, 1024 - 500, 5, -55.0); // 11 bins wide
    let d = cfar(&s, 1000.0, &CfarConfig::default());
    assert_eq!(d.len(), 2);
    let wide = d.iter().find(|d| d.offset_hz < 0.0).unwrap();
    assert!((wide.offset_hz + 500_000.0).abs() < 500.0, "{}", wide.offset_hz);
    assert!((wide.bandwidth_hz - 11_000.0).abs() <= 1000.0, "{}", wide.bandwidth_hz);
    let tone = d.iter().find(|d| d.offset_hz > 0.0).unwrap();
    assert!((tone.offset_hz - 300_000.0).abs() < 1.0);
    assert!((tone.snr_db() - 40.0).abs() < 2.0);
}

#[test]
fn starkes_signal_verdeckt_schwachen_nachbarn_nicht() {
    let mut s = floor(2048, 2);
    add(&mut s, 1000, 2, -20.0);
    add(&mut s, 1050, 2, -60.0); // 50 bins away, 40 dB weaker
    assert_eq!(cfar(&s, 1000.0, &CfarConfig::default()).len(), 2);
}

#[test]
fn short_gaps_join_and_wide_ones_part() {
    let cfg = CfarConfig { guard: 0, train: 0, threshold_db: 0, max_gap: 2 };
    let hit: Vec<bool> = "1001000110".chars().map(|c| c == '1').collect();
    let levels = [5, 0, 0, 5, 0, 0, 0, 1, 9, 9];
    assert_eq!(
        merge(&hit, &levels, &cfg),
        vec![
            Span { first: 0, last: 3, peak: 3 },
            Span { first: 7, last: 8, peak: 8 },
        ]
    );
    let joined = merge(&hit, &levels, &CfarConfig { max_gap: 3, ..cfg });
    assert_eq!(joined, vec![Span { first: 0, last: 8, peak: 8 }]);
    assert!(merge(&[], &[], &cfg).is_empty());
    assert!(merge(&[false; 4], &[1; 4], &cfg).is_empty());
    assert_eq!(merge(&[true; 3], &[1; 3], &cfg), vec![Span { first: 0, last: 2, peak: 2 }]);
}

#[test]
fn training_cells_leave_out_the_guard_cells() {
    let cfg = CfarConfig { guard: 2, train: 3, threshold_db: 0, max_gap: 0 };
    let c = training_cells(10, 100, &cfg);
    assert_eq!((c.left_from, c.left_to, c.right_from, c.right_to), (5, 8, 13, 16));
    assert_eq!(c.count(), 6);
    let c = training_cells(0, 4, &cfg);
    assert_eq!((c.left_from, c.left_to, c.right_from, c.right_to), (0, 0, 3, 4));
    let c = training_cells(0, 1, &cfg);
    assert_eq!(c.count(), 0);
}

#[test]
fn default_threshold_is_ten_decibels() {
    let c = CfarConfig::default();
    assert_eq!(number32(c.threshold_db), 10.0);
    assert_eq!((c.guard, c.train, c.max_gap), (8, 24, 2));
}

const HOLD_S: f64 = 10.0;
const CANDIDATE_HOLD_S: f64 = 3.0;

fn age(t: f64, last_seen: f64, frame_s: f64) -> Age {
    Age {
        continuous: t - last_seen <= 1.5 * frame_s,
        held: t - last_seen <= HOLD_S,
        candidate_held: t - last_seen <= CANDIDATE_HOLD_S,
    }
}

/// Measures how the detections lie to the tracks and updates the tracker.
fn update(tr: &mut Tracker, t: f64, found: &[Found], bin_hz: f64) -> (Vec<u64>, Vec<TrackEvent>) {
    let frame_s = 0.04;
    let near: Vec<Vec<Option<Near>>> = found
        .iter()
        .map(|d| {
            tr.tracks()
                .iter()
                .map(|x| {
                    let (offset, width) = (number(x.offset_hz), number(x.bandwidth_hz));
                    let tolerance = if x.confirmed {
                        (3.0 * bin_hz).max(0.5 * width.max(d.bandwidth_hz))
                    } else {
                        (0.6 * bin_hz).max(0.05 * d.bandwidth_hz)
                    };
                    let distance = (offset - d.offset_hz).abs();
                    (distance <= tolerance).then(|| Near {
                        distance: key(distance),
                        offset_hz: key(0.7 * offset + 0.3 * d.offset_hz),
                        bandwidth_hz: key(0.7 * width + 0.3 * d.bandwidth_hz),
                    })
                })
                .collect()
        })
        .collect();
    let ages: Vec<Age> =
        tr.tracks().iter().map(|x| age(t, number(x.last_seen), frame_s)).collect();
    let keys: Vec<Detection> = found.iter().map(Found::keys).collect();
    tr.update(key(t), &keys, &near, &ages, age(t, t, frame_s))
}

fn det(offset_hz: f64) -> Found {
    Found { offset_hz, bandwidth_hz: 5000.0, peak_db: -50.0, noise_db: -80.0, first_bin: 0, last_bin: 0 }
}

#[test]
fn dauersender_wird_bestaetigt_und_geht_verloren() {
    let mut tr = Tracker::new(2);
    let mut events = Vec::new();
    for f in 0..6 {
        // The frequency wobbles by some hundred hertz, but it stays the same signal.
        let (ids, ev) =
            update(&mut tr, f as f64 * 0.04, &[det(10_000.0 + 300.0 * (f % 2) as f64)], 1000.0);
        assert_eq!(ids, vec![1]);
        events.extend(ev);
    }
    assert_eq!(events, vec![TrackEvent::Confirmed(1)]);
    let (_, ev) = update(&mut tr, 20.0, &[], 1000.0);
    assert_eq!(ev, vec![TrackEvent::Lost(1)]);
    assert!(tr.tracks().is_empty());
}

#[test]
fn burstsender_wird_nach_fuenf_bursts_bestaetigt() {
    let mut tr = Tracker::new(2);
    let mut confirmed_at = None;
    // Every 1.2 s a burst over two frames, like an AIS channel.
    for burst in 0..6 {
        for f in 0..2 {
            let t = burst as f64 * 1.2 + f as f64 * 0.04;
            let (_, ev) = update(&mut tr, t, &[det(25_000.0)], 1000.0);
            if ev == vec![TrackEvent::Confirmed(1)] {
                confirmed_at = Some(burst);
            }
        }
    }
    assert_eq!(confirmed_at, Some(4));
}

#[test]
fn springer_wird_nie_bestaetigt() {
    let mut tr = Tracker::new(2);
    // Hop k lies on a random frequency somewhere in 850 kHz.
    let hop_freq = |k: u64| StdRng::seed_from_u64(k).random_range(250_000.0..1_100_000.0);
    // Five minutes: every 50 ms a new hop, visible in every frame of 40 ms that
    // it touches.
    for f in 0..7500u64 {
        let t = f as f64 * 0.04;
        let (first, last) = ((t / 0.05) as u64, ((t + 0.04) / 0.05).ceil() as u64 - 1);
        let hops: Vec<Found> = (first..=last).map(|k| det(hop_freq(k))).collect();
        let (_, ev) = update(&mut tr, t, &hops, 1000.0);
        assert!(
            ev.iter().all(|e| !matches!(e, TrackEvent::Confirmed(_))),
            "frame {f}: {ev:?}"
        );
    }
}

#[test]
fn stimmen_ergeben_die_klasse() {
    let mut tr = Tracker::new(3);
    update(&mut tr, 0.0, &[det(0.0)], 1000.0);
    let t = tr.get_mut(1).unwrap();
    let votes = [0.1f32, 1.5, 0.4];
    t.votes = votes.iter().map(|&v| key32(v)).collect();
    let total: f32 = votes.iter().sum();
    let i = t.class(key32(total)).unwrap();
    assert_eq!((i, votes[i] / total), (1, 0.75));
    assert_eq!(t.class(key32(0.0)), None);
    assert_eq!(t.class(key32(f32::NAN)), None);
    assert!(tr.get_mut(2).is_none());
}

#[test]
fn strong_detections_choose_first() {
    let mut tr = Tracker::new(1);
    update(&mut tr, 0.0, &[det(1000.0)], 1000.0);
    let strong = Found { peak_db: -20.0, ..det(1200.0) };
    let (ids, _) = update(&mut tr, 0.04, &[det(1000.0), strong], 1000.0);
    assert_eq!(ids, vec![2, 1]);
    assert_eq!(tr.tracks().len(), 2);
    assert_eq!(tr.tracks()[0].hits, 2);
    assert_eq!(number32(tr.tracks()[0].peak_db), -20.0);
}

#[test]
fn nearest_track_wins_and_numbers_are_not_reused() {
    let mut tr = Tracker::new(1);
    let (ids, _) = update(&mut tr, 0.0, &[det(0.0), det(700.0)], 1000.0);
    assert_eq!(ids, vec![1, 2]);
    let (ids, _) = update(&mut tr, 0.04, &[det(400.0)], 1000.0);
    assert_eq!(ids, vec![2]);
    // Both are forgotten without an event, and the next signal is a third one.
    let (ids, ev) = update(&mut tr, 9.0, &[], 1000.0);
    assert_eq!((ids, ev), (vec![], vec![]));
    assert!(tr.tracks().is_empty());
    let (ids, ev) = update(&mut tr, 9.04, &[det(0.0)], 1000.0);
    assert_eq!((ids, ev), (vec![3], vec![]));
    assert_eq!(tr.tracks().len(), 1);
}

#[test]
fn tracks_show_what_was_detected() {
    let mut tr = Tracker::new(1);
    for t in [0.0, 0.04, 3.0] {
        let strong = Found { peak_db: -20.0, ..det(90_000.0) };
        let (ids, _) = update(&mut tr, t, &[det(1000.0), strong], 1000.0);
        let levels: Vec<f32> = ids
            .iter()
            .map(|&id| {
                let track = tr.tracks().iter().find(|x| x.id == id).unwrap();
                assert_eq!(number(track.last_seen), t);
                number32(track.peak_db)
            })
            .collect();
        assert_eq!(levels, vec![-50.0, -20.0]);
    }
}

#[test]
fn signal_is_confirmed_and_lost_once() {
    let mut tr = Tracker::new(1);
    let mut events = Vec::new();
    for f in 0..40 {
        events.extend(update(&mut tr, f64::from(f) * 0.04, &[det(0.0)], 1000.0).1);
    }
    events.extend(update(&mut tr, 99.0, &[], 1000.0).1);
    // What comes after the loss is another signal.
    for f in 0..7 {
        events.extend(update(&mut tr, 100.0 + f64::from(f) * 0.04, &[det(0.0)], 1000.0).1);
    }
    let want = [TrackEvent::Confirmed(1), TrackEvent::Lost(1), TrackEvent::Confirmed(2)];
    assert_eq!(events, want.to_vec());
}

#[test]
fn confirmation_can_be_made_harder() {
    let mut tr = Tracker::new(1);
    tr.set_confirmation(2, 9);
    let (_, a) = update(&mut tr, 0.0, &[det(0.0)], 1000.0);
    let (_, b) = update(&mut tr, 0.04, &[det(0.0)], 1000.0);
    assert_eq!((a, b), (vec![], vec![TrackEvent::Confirmed(1)]));
}

#[test]
fn keys_order_as_numbers_do() {
    let v = [f64::NEG_INFINITY, -2.0, -1.0, -0.0, 0.0, 1e-300, 1.0, f64::INFINITY];
    assert!(v.windows(2).all(|w| key(w[0]) < key(w[1])));
    assert!(v.iter().all(|&x| number(key(x)).to_bits() == x.to_bits()));
    let v = [-3.0f32, -0.0, 0.0, 0.5, 7.0];
    assert!(v.windows(2).all(|w| key32(w[0]) < key32(w[1])));
    assert!(v.iter().all(|&x| number32(key32(x)).to_bits() == x.to_bits()));
}

#[test]
fn equal_keys_keep_their_order() {
    assert_eq!(descending_order(&[1, 3, 2, 3]), vec![1, 3, 2, 0]);
    assert_eq!(ascending_order(&[1, 3, 1, i64::MIN]), vec![3, 0, 2, 1]);
    assert_eq!(last_max(&[4, 9, 9, 1], 0, 4), 2);
}
