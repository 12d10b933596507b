//! Surveillance, storage, fleet and training.

use prost::Message;
use rand::rngs::StdRng;
use rand::{RngExt, SeedableRng};
use spectrum_monitor::ais::demod::{AisReceiver, ReceivedFrame};
use spectrum_monitor::ais::fleet::{kiel, leg, ship_data, turn, Course, Fix, Ship, Turn};
use spectrum_monitor::ais::message::{AisMessage, PositionReport, StaticData};
use spectrum_monitor::ais::nmea::parse;
use spectrum_monitor::ais::{modulate, Channel};
use spectrum_monitor::burst::{AisChannel, Burst, Hopper, Sample};
use spectrum_monitor::classify::{
    classify, extract, is_noise, place_burst, placed_at, start_range, window_count, Class,
    Placement, WrongOutputs,
};
use spectrum_monitor::order::{order_key, order_key_32};
use spectrum_monitor::pipeline::{datagrams, handle, Pace, Pacer};
use spectrum_monitor::scanner::{Output, Reading, Scanner, SignalEventKind};
use spectrum_monitor::server::{forward, message_limit, track_limit, Forward, Received};
use spectrum_monitor::store::{
    record, stored_channel, stored_message, stored_text, unknown_vessel, MessageLog, Vessel,
};
use spectrum_monitor::track::{Age, Detection, Near, TrackEvent};
use spectrum_monitor::train::data::{
    argmax, class_list, confusion, correct, example_class, example_seed, in_order, labels,
    metadata, next_epoch, pieces, probes, shares,
};
use spectrum_monitor::train::onnx::{conv_shape, export, network, Weight, CONVS, INPUT, OUTPUT};
use spectrum_monitor::wire::{bytes, words};
use tract_onnx::pb;

fn position() -> AisMessage {
    AisMessage::Position(PositionReport {
        msg_type: 1,
        mmsi: 211_234_560,
        nav_status: 0,
        sog: Some(123),
        accurate: true,
        lon: Some((10.1834f64 * 600_000.0).round() as i64),
        lat: Some((54.3721f64 * 600_000.0).round() as i64),
        cog: Some(175),
        heading: Some(18),
        second: 42,
    })
}

fn static_data() -> AisMessage {
    AisMessage::Static(StaticData {
        mmsi: 211_234_560,
        imo: 9_123_456,
        callsign: "DABC".into(),
        name: "FOERDE EXPRESS".into(),
        ship_type: 60,
        dims: [30, 40, 8, 8],
        draught: 42,
        destination: "KIEL".into(),
    })
}

fn log(ts_ms: i64, msg_type: u8) -> MessageLog {
    MessageLog {
        ts_ms,
        channel: 'A',
        mmsi: 211_234_560,
        msg_type,
        nmea: vec!["!AIVDM,…".into()],
    }
}

#[test]
fn position_und_stammdaten_werden_zusammengefuehrt() {
    let first = record(&log(1000, 1), Some(&position()), None, None);
    assert!(first.point.is_some());
    let r = record(&log(2000, 5), Some(&static_data()), first.vessel, None);
    let v = r.vessel.unwrap();
    assert_eq!(v.name.as_deref(), Some("FOERDE EXPRESS"));
    assert_eq!(v.length_m, Some(70));
    assert!((v.lat.unwrap() as f64 / 600_000.0 - 54.3721).abs() < 1e-6);
    assert_eq!((v.messages, v.last_seen_ms), (2, 2000));
    assert!(r.point.is_none() && r.other.is_none());
}

#[test]
fn unevaluated_types_land_only_in_the_log() {
    let r = record(&log(7, 21), None, None, None);
    assert!(r.vessel.is_none() && r.other.is_none() && r.point.is_none());
    let known = record(&log(1, 1), Some(&position()), None, None).vessel;
    let r = record(&log(7, 21), None, known.clone(), None);
    assert_eq!(r.vessel, known);
    assert_eq!((known.unwrap().last_seen_ms, r.point.is_none()), (1, true));
}

#[test]
fn position_without_place_leaves_no_point() {
    let AisMessage::Position(mut p) = position() else { panic!() };
    p.lat = None;
    let r = record(&log(1, 1), Some(&AisMessage::Position(p)), None, None);
    assert!(r.point.is_none());
    let v = r.vessel.unwrap();
    assert_eq!((v.lat, v.sog), (None, Some(123)));
}

#[test]
fn message_on_another_ship_goes_to_that_ship() {
    let AisMessage::Position(mut p) = position() else { panic!() };
    p.mmsi = 5;
    let other: Vessel = Vessel { messages: 1, ..unknown_vessel(5) };
    let r = record(&log(9, 1), Some(&AisMessage::Position(p)), None, Some(other));
    let v = r.vessel.unwrap();
    assert_eq!((v.mmsi, v.lat, v.messages), (211_234_560, None, 1));
    let other = r.other.unwrap();
    assert_eq!((other.mmsi, other.lat, other.messages), (5, p.lat, 1));
    assert_eq!(r.point.unwrap().mmsi, 5);
}

#[test]
fn stored_messages_come_back() {
    let mut l = log(3, 5);
    l.nmea = vec!["!AIVDM,2,1".into(), "!AIVDM,2,2".into()];
    let text = stored_text(&l);
    assert_eq!(text, "!AIVDM,2,1\n!AIVDM,2,2");
    assert_eq!(stored_message(3, "A", 211_234_560, 5, &text), l);
    assert_eq!(stored_channel(""), '?');
    assert_eq!(stored_message(0, "B", 1, 1, "a\r\nb\n").nmea, vec!["a", "b"]);
    assert!(stored_message(0, "B", 1, 1, "").nmea.is_empty());
    assert_eq!(stored_message(0, "B", 1, 1, "a\n\r").nmea, vec!["a", "\r"]);
}

#[test]
fn frames_are_handled_up_to_their_datagrams() {
    let frame = ReceivedFrame { channel: Channel::B, payload: static_data().encode() };
    let h = handle(&frame, 9, 77).unwrap();
    assert_eq!((h.log.ts_ms, h.log.channel, h.log.mmsi, h.log.msg_type), (77, 'B', 211_234_560, 5));
    assert_eq!(h.message, Some(static_data()));
    assert_eq!((h.log.nmea.len(), h.seq_id), (2, 0));
    assert!(datagrams(&h.log).iter().zip(&h.log.nmea).all(|(d, l)| *d == format!("{l}\r\n")));

    let frame = ReceivedFrame { channel: Channel::A, payload: position().encode() };
    let h = handle(&frame, 4, 0).unwrap();
    assert_eq!((h.log.nmea.len(), h.seq_id, h.log.channel), (1, 4, 'A'));
    assert_eq!(parse(&h.log.nmea[0]), Some(position().encode()));

    let short = ReceivedFrame { channel: Channel::A, payload: vec![true; 37] };
    assert!(handle(&short, 0, 0).is_none());
    let odd = ReceivedFrame { channel: Channel::A, payload: vec![true; 40] };
    let h = handle(&odd, 0, 0).unwrap();
    assert_eq!((h.log.msg_type, h.message), (63, None));
}

#[test]
fn pacing_waits_or_warns_once() {
    let mut p = Pacer { next: 100, warned: false };
    assert_eq!(p.frame_done(120, 40), Pace { wait: 20, warn: false });
    assert_eq!(p.frame_done(500, 40), Pace { wait: 0, warn: true });
    assert_eq!(p.frame_done(540, 40), Pace { wait: 0, warn: false });
    assert_eq!(p, Pacer { next: 540, warned: true });
}

#[test]
fn queries_are_limited() {
    assert_eq!((track_limit(None), track_limit(Some(7)), track_limit(Some(99_999))), (500, 7, 10_000));
    assert_eq!((message_limit(None), message_limit(Some(0)), message_limit(Some(5000))), (50, 0, 1000));
    assert_eq!(forward(Received::Item), Forward::Send);
    assert_eq!(forward(Received::Lagged), Forward::Skip);
    assert_eq!(forward(Received::Closed), Forward::Stop);
}

/// Runs a steady signal through the scanner, with votes for one class.
fn run(scanner: &mut Scanner, frames: usize, from: usize, probs: &[f32; 6]) -> Vec<Output> {
    let key = |v: f64| order_key(v.to_bits());
    let key32 = |v: f32| order_key_32(v.to_bits());
    let seen = Age { continuous: true, held: true, candidate_held: true };
    let d = Detection {
        offset_hz: key(1000.0),
        bandwidth_hz: key(500.0),
        peak_db: key32(-40.0),
        snr_db: key32(30.0),
        first_bin: 1,
        last_bin: 2,
    };
    (from..from + frames)
        .map(|f| {
            let known = scanner.tracks().len();
            let near = Near { distance: 0, offset_hz: d.offset_hz, bandwidth_hz: d.bandwidth_hz };
            let (ids, events) = scanner.observe(
                key(f as f64),
                &[d],
                &[vec![Some(near); known]],
                &vec![seen; known],
                seen,
            );
            if scanner.due(ids[0], true) {
                let n = scanner.tracks()[0].classified as f32 + 1.0;
                let votes = probs.iter().map(|p| key32(p * n)).collect();
                let keys: Vec<i64> = probs.iter().map(|&p| key32(p)).collect();
                scanner.vote(ids[0], &keys, votes, key(f as f64));
            }
            let reading = Reading {
                center_hz: key(162e6),
                total: key32(1.0),
                confidence: key32(0.9),
                first_seen_ms: 0,
                last_seen_ms: f as i64,
            };
            let readings = vec![reading; scanner.tracks().len()];
            scanner.report(&events, &readings, f as i64, true)
        })
        .collect()
}

#[test]
fn signal_appears_after_five_votes() {
    let mut s = Scanner::new();
    let out = run(&mut s, 8, 0, &[0.1, 0.0, 0.0, 0.9, 0.0, 0.0]);
    let events: Vec<(i64, SignalEventKind, Class)> =
        out.iter().flat_map(|o| &o.events).map(|e| (e.ts_ms, e.kind, e.signal.class)).collect();
    // The first hit is not classified, so the fifth vote comes with the sixth.
    assert_eq!(events, vec![(5, SignalEventKind::Appeared, Class::Fm)]);
    let last = out.last().unwrap().snapshot.as_ref().unwrap();
    assert_eq!((last.len(), last[0].id, last[0].last_seen_ms), (1, 1, 7));
    assert!(out[4].snapshot.as_ref().unwrap().is_empty());
}

#[test]
fn noise_is_an_abstention() {
    let mut s = Scanner::new();
    let out = run(&mut s, 20, 0, &[0.5, 0.0, 0.0, 0.5, 0.0, 0.0]);
    assert!(out.iter().all(|o| o.events.is_empty()));
    assert_eq!(s.tracks()[0].classified, 0);
    assert!(s.tracks()[0].confirmed);
}

#[test]
fn class_changes_and_losses_are_reported() {
    let mut s = Scanner::new();
    run(&mut s, 8, 0, &[0.0, 0.0, 0.9, 0.1, 0.0, 0.0]);
    let out = run(&mut s, 1, 8, &[0.0, 0.0, 0.1, 0.0, 0.0, 0.9]);
    assert_eq!(out[0].events.len(), 1);
    assert_eq!(out[0].events[0].kind, SignalEventKind::Reclassified);
    assert_eq!(out[0].events[0].signal.class, Class::Qpsk);
    let gone = Age { continuous: false, held: false, candidate_held: false };
    let (_, events) = s.observe(0, &[], &[], &[gone], gone);
    assert_eq!(events, vec![TrackEvent::Lost(1)]);
    let out = s.report(&events, &[], 99, false);
    assert_eq!((out.events.len(), out.events[0].kind), (1, SignalEventKind::Lost));
    assert_eq!(out.events[0].signal.class, Class::Qpsk);
    assert!(out.snapshot.is_none());
    assert!(Output::default().events.is_empty());
}

#[test]
fn first_hits_and_settled_signals_are_not_due() {
    let mut s = Scanner::new();
    assert!(!s.due(1, true));
    run(&mut s, 1, 0, &[0.0; 6]);
    assert!(!s.due(1, true));
    run(&mut s, 6, 1, &[0.0, 1.0, 0.0, 0.0, 0.0, 0.0]);
    assert!(!s.due(1, false));
    assert!(s.due(1, true));
}

#[test]
fn classes_have_their_place_and_name() {
    let labels: Vec<&str> = Class::ALL.iter().map(|c| c.label()).collect();
    assert_eq!(labels, vec!["Rauschen", "Träger", "AM", "FM", "GMSK", "QPSK"]);
    for (i, c) in Class::ALL.iter().enumerate() {
        assert_eq!((c.index(), Class::from_index(i)), (i, Some(*c)));
    }
    assert_eq!(Class::from_index(6), None);
    assert_eq!(class_list(), "Rauschen,Träger,AM,FM,GMSK,QPSK");
}

#[test]
fn network_must_have_six_outputs() {
    assert_eq!(classify(vec![1; 6]), Ok(vec![1; 6]));
    let e = classify(vec![1; 5]).unwrap_err();
    assert_eq!(e, WrongOutputs { got: 5 });
    assert_eq!(e.message(), "Modell liefert 5 statt 6 Klassen");
    let half = order_key_32(0.5f32.to_bits());
    assert!(is_noise(&[half]) && !is_noise(&[half - 1]));
    assert!(!is_noise(&[order_key_32(f32::NAN.to_bits())]));
}

#[test]
fn strongest_window_is_taken() {
    assert_eq!((window_count(1055), window_count(1056), window_count(1088)), (0, 1, 2));
    assert_eq!(extract(1055, &[]), None);
    assert_eq!(extract(1120, &[3, 7, 7]), Some(32 + 64));
}

#[test]
fn bursts_stay_in_the_block() {
    assert_eq!((start_range(50_000), start_range(100)), ((-20_000, 66_000), (0, 95_900)));
    assert_eq!(placed_at(50_000, -20_000), Placement { skip: 20_000, delay: 0 });
    assert_eq!(placed_at(50_000, 66_000), Placement { skip: 0, delay: 66_000 });
    let mut rng = StdRng::seed_from_u64(1);
    let places: Vec<Placement> = (0..200).map(|_| place_burst(50_000, &mut rng)).collect();
    assert!(places.iter().any(|p| p.skip > 0) && places.iter().any(|p| p.delay > 0));
    assert!(places.iter().all(|p| p.skip <= 20_000 && p.delay <= 66_000));
    // The draw moves the generator on.
    assert!(places.windows(2).any(|w| w[0] != w[1]));
}

#[test]
fn channel_sends_bursts_with_silence_between() {
    let mut c = AisChannel::new();
    c.push(Burst { freq: vec![1, 2, 3], amplitude: 8 });
    c.push(Burst { freq: vec![4], amplitude: 9 });
    let out: Vec<Option<Sample>> = (0..8).map(|_| c.next(5, 2)).collect();
    let s = |freq, amplitude, edge| Some(Sample { freq, amplitude, edge });
    assert_eq!(
        out,
        vec![s(1, 8, 0), s(2, 8, 1), s(3, 8, 0), None, None, s(4, 9, 0), None, None]
    );
}

#[test]
fn hopper_changes_every_hop() {
    let mut h = Hopper { left: 0 };
    let changes: Vec<bool> = (0..7).map(|_| h.next(3)).collect();
    assert_eq!(changes, vec![true, false, false, true, false, false, true]);
}

fn fleet() -> Vec<Ship> {
    let (a, b) = (Channel::A, Channel::B);
    kiel([a, b, a, b, a, b])
}

#[test]
fn jedes_schiff_meldet_position_und_name() {
    let mut rng = StdRng::seed_from_u64(1);
    let mut ships = fleet();
    let mut times: Vec<(f64, f64)> = ships
        .iter()
        .map(|_| (rng.random_range(0.2..3.0), rng.random_range(0.5..5.0)))
        .collect();
    let fix = Fix { sog: 1, lon: 2, lat: 3, cog: 4, heading: None, second: 5 };
    let mut msgs = Vec::new();
    for step in 1..=400 {
        let t = f64::from(step) * 0.1;
        for (s, (next_position, next_static)) in ships.iter_mut().zip(&mut times) {
            let (p, d) = (t >= *next_position, t >= *next_static);
            if p {
                *next_position = t + rng.random_range(3.0..5.0);
            }
            if d {
                *next_static = t + rng.random_range(25.0..35.0);
            }
            msgs.extend(s.report(d, p.then_some(fix)));
        }
    }
    for s in &ships {
        let mine =
            |t| msgs.iter().any(|(m, _)| m.mmsi() == s.data.mmsi && m.msg_type() == t);
        assert!(mine(1) && mine(5), "{} is missing", s.data.name);
    }
}

/// Metres to the north and to the east.
fn to_meters(from: (f64, f64), to: (f64, f64)) -> (f64, f64) {
    let north = (to.0 - from.0) * 111_320.0;
    let east = (to.1 - from.1) * 111_320.0 * from.0.to_radians().cos();
    (north, east)
}

#[test]
fn schiff_wendet_am_routenende() {
    let points = [(54.0, 10.0), (54.01, 10.0)];
    let (n, e) = to_meters(points[0], points[1]);
    let cum = [0.0, n.hypot(e)];
    let key = |v: f64| order_key(v.to_bits());
    let (mut along, forward) = (1000.0, true);
    // 60 s at ten knots: a good 300 m, and the route is a good 1100 m long.
    along += 10.0 * 1852.0 / 3600.0 * 60.0;
    let (at, forward) = turn(key(along), key(cum[1]), forward);
    assert_eq!((at, forward), (Turn::AtEnd, false));
    along = 2.0 * cum[1] - along;
    let i = leg(&cum.map(key), key(along));
    let (a, b) = (points[i - 1], points[i]);
    let (n, e) = if forward { to_meters(a, b) } else { to_meters(b, a) };
    let course = e.atan2(n).to_degrees().rem_euclid(360.0);
    assert!((course - 180.0).abs() < 1.0);
}

#[test]
fn ships_turn_at_both_ends_only() {
    assert_eq!(turn(5, 10, false), (Turn::Ahead, false));
    assert_eq!(turn(10, 10, true), (Turn::AtEnd, false));
    assert_eq!(turn(0, 10, false), (Turn::AtStart, true));
    assert_eq!(turn(order_key((-0.0f64).to_bits()), 10, false), (Turn::AtStart, true));
}

#[test]
fn fleet_is_the_planned_one() {
    let ships = fleet();
    let names: Vec<&str> = ships.iter().map(|s| s.data.name.as_str()).collect();
    assert_eq!(names, vec!["NORDLICHT", "SCHWENTINE", "LABOE", "BALTIC AMBER", "SPROTTE", "MOEWE"]);
    assert_eq!(ships[0].data.dims, [126, 64, 15, 15]);
    let draughts: Vec<u64> = ships.iter().map(|s| s.data.draught).collect();
    assert_eq!(draughts, vec![76, 44, 15, 58, 15, 15]);
    assert_eq!(ship_data(1, "", "", 0, 400, 1).draught, 80);
    assert_eq!(ships[5].data.mmsi, 211_990_006);
    assert_eq!(ships[3].speed, 0);
}

#[test]
fn ships_alternate_channels() {
    let mut s = fleet().remove(0);
    let fix = Fix { sog: 120, lon: 2, lat: 3, cog: 4, heading: Some(7), second: 5 };
    let r = s.report(true, Some(fix));
    assert_eq!((r.len(), r[0].1, r[1].1), (2, Channel::A, Channel::B));
    assert_eq!(r[0].0, AisMessage::Static(s.data.clone()));
    let AisMessage::Position(p) = r[1].0 else { panic!() };
    assert_eq!((p.mmsi, p.sog, p.heading, p.accurate), (211_990_001, Some(120), Some(7), true));
    assert!(s.report(false, None).is_empty());
    let mut channels = Vec::new();
    for k in 0..6 {
        channels.extend(s.report(k % 2 == 0, (k % 3 == 0).then_some(fix)).iter().map(|m| m.1));
    }
    assert_eq!(channels.len(), 5);
    assert!(channels.windows(2).all(|w| w[0] != w[1]));
    s.next_channel();
    assert_eq!(s.next_channel(), Channel::A);
    assert_eq!(s.next_channel(), Channel::B);
}

#[test]
fn whole_fleet_is_heard() {
    let fix = Fix { sog: 95, lon: 6_110_040, lat: 32_623_260, cog: 3599, heading: Some(359), second: 59 };
    for mut ship in fleet() {
        for (message, _) in ship.report(true, Some(fix)) {
            let mut receiver = AisReceiver::new();
            let frames = receiver.process(&modulate(&message.encode()), &[]);
            let read: Vec<_> = frames.iter().map(|f| AisMessage::decode(&f.payload)).collect();
            assert_eq!(read, vec![Ok(message)]);
        }
    }
}

#[test]
fn round_courses_end_where_they_begin() {
    let p = Course::Fishing.points();
    assert_eq!((p.len(), p[0], p[4]), (5, (544550, 102250), (544550, 102250)));
    assert_eq!(Course::Fairway.points().len(), 11);
    assert!(!Course::Anchorage.closed() && Course::Sailing.closed());
    let cum = [0, 10, 20, 30];
    assert_eq!([-5, 0, 10, 19, 20, 30, 99].map(|a| leg(&cum, a)), [1, 1, 2, 2, 3, 3, 3]);
}

#[test]
fn examples_are_spread_without_gaps() {
    assert_eq!(shares(10, 4), vec![(0, 3), (3, 6), (6, 9), (9, 10)]);
    assert_eq!(shares(3, 8), vec![(0, 1), (1, 2), (2, 3)]);
    assert_eq!(pieces(5, 2), vec![(0, 2), (2, 4), (4, 5)]);
    assert_eq!(example_seed(2, 5), 2_000_011);
    assert_eq!(example_seed(u64::MAX, 1), 0u64.wrapping_sub(1_000_002));
    assert_eq!((example_class(0), example_class(11)), (Class::Noise, Class::Qpsk));
    assert_eq!(labels(8), vec![0, 1, 2, 3, 4, 5, 0, 1]);
    assert_eq!(probes(180).len(), 60);
    assert_eq!(probes(61)[60], 60);
}

#[test]
fn epochs_shuffle_all_examples() {
    let mut rng = StdRng::seed_from_u64(3);
    let mut order = in_order(100);
    let batches = next_epoch(&mut order, 64, &mut rng);
    assert_eq!(batches, vec![(0, 64), (64, 100)]);
    assert_ne!(order, in_order(100));
    order.sort();
    assert_eq!(order, in_order(100));
}

#[test]
fn confusion_counts_truth_against_finding() {
    let (truth, found) = ([0, 1, 1, 5, 5], [0, 1, 2, 5, 5]);
    let m = confusion(&truth, &found);
    assert_eq!((m[0][0], m[1][1], m[1][2], m[5][5], m[2][1]), (1, 1, 1, 2, 0));
    assert_eq!(correct(&truth, &found), 4);
    assert_eq!((argmax(&[]), argmax(&[3, 8, 8])), (0, 2));
}

#[test]
fn words_are_little_endian() {
    assert_eq!(bytes(&[0x0403_0201, 1]), vec![1, 2, 3, 4, 1, 0, 0, 0]);
    assert_eq!(words(&[1, 2, 3, 4, 9]), vec![0x0403_0201]);
    assert_eq!(words(&bytes(&[1.5f32.to_bits()])), vec![1.5f32.to_bits()]);
}

#[test]
fn exported_model_holds_graph_weights_and_metadata() {
    let w = Weight {
        name: "conv0.weight".into(),
        dims: vec![1, 2],
        data: vec![1.0f32.to_bits(), (-2.5f32).to_bits()],
    };
    let meta = metadata("0.9790", 7);
    let out = export(&[w], &meta, "0.1.0");
    let model = pb::ModelProto::decode(out.as_slice()).unwrap();
    assert_eq!((model.ir_version, model.producer_version.as_str()), (7, "0.1.0"));
    assert_eq!(model.opset_import.len(), 1);
    assert_eq!((model.opset_import[0].domain.as_str(), model.opset_import[0].version), ("", 13));
    assert_eq!(model.producer_name, "spectrum-monitor train");
    assert_eq!(model.metadata_props.len(), 4);
    assert_eq!(model.metadata_props[0].value, "Rauschen,Träger,AM,FM,GMSK,QPSK");
    assert_eq!(
        model.metadata_props[1].value,
        "3x1024 bei 48 kHz: Betrag, Momentanfrequenz/5 kHz, Spektrum"
    );
    assert_eq!(model.metadata_props[3].key, "seed");
    let g = model.graph.unwrap();
    assert_eq!((g.name.as_str(), g.node.len()), ("modulation", 16));
    let first = &g.node[0];
    assert_eq!(first.op_type, "Conv");
    assert_eq!(first.input, vec!["features", "conv0.weight", "conv0.bias"]);
    assert_eq!((first.name.as_str(), first.output[0].as_str()), ("conv0.out", "conv0.out"));
    let a = &first.attribute;
    assert_eq!((a[0].name.as_str(), a[0].ints.clone()), ("kernel_shape", vec![7]));
    assert_eq!((a[1].ints.clone(), a[2].ints.clone(), a[4].i), (vec![3, 3], vec![2], 1));
    let ints = pb::AttributeProto { ints: vec![7], name: "kernel_shape".into(), ..a[0].clone() };
    assert_eq!(ints, a[0]);
    let last = g.node.last().unwrap();
    assert_eq!((last.op_type.as_str(), last.output[0].as_str()), ("Softmax", OUTPUT));
    assert_eq!(g.initializer.len(), 1);
    assert_eq!(g.initializer[0].dims, vec![1, 2]);
    assert_eq!(g.initializer[0].data_type, 1);
    assert_eq!(g.initializer[0].raw_data, [1.0f32.to_le_bytes(), (-2.5f32).to_le_bytes()].concat());
    assert_eq!((g.input[0].name.as_str(), g.output[0].name.as_str()), (INPUT, OUTPUT));
    // The shapes of input and output: open, three by 1024, and open, six.
    let shape = |n: i64| pb::tensor_shape_proto::dimension::Value::DimValue(n);
    let open = pb::tensor_shape_proto::dimension::Value::DimParam("N".into());
    let encoded = g.input[0].encode_to_vec();
    for (v, want) in [
        (&g.input[0], vec![open.clone(), shape(3), shape(1024)]),
        (&g.output[0], vec![open, shape(6)]),
    ] {
        let dims = dims_of(v);
        assert_eq!(dims, want.into_iter().map(Some).collect::<Vec<_>>());
    }
    assert!(!encoded.is_empty());
}

/// The dimensions in the description of a value: its second field is the type.
fn dims_of(
    v: &pb::ValueInfoProto,
) -> Vec<Option<pb::tensor_shape_proto::dimension::Value>> {
    let bytes = v.encode_to_vec();
    // Field 1 is the name, field 2 the type, each with a length in front.
    let name = bytes[1] as usize;
    let kind = pb::TypeProto::decode(&bytes[2 + name + 2..]).unwrap();
    let Some(pb::type_proto::Value::TensorType(t)) = kind.value else { panic!() };
    assert_eq!(t.elem_type, 1);
    t.shape.unwrap().dim.into_iter().map(|d| d.value).collect()
}

#[test]
fn network_is_built_layer_by_layer() {
    let n = network();
    assert_eq!(n.len(), 2 * CONVS + 8);
    assert_eq!(n[2].inputs[0], "relu0.out");
    assert_eq!(n[8].inputs, vec!["relu3.out"]);
    assert_eq!((conv_shape(0), conv_shape(3)), ((3, 32, 7), (64, 64, 3)));
}
