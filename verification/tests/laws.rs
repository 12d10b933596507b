//! What holds of the library as a whole, on chosen values.

use spectrum_monitor::ais::frame::{build, crc16, nrzi, Deframer, CRC_GOOD, TRAINING_BITS};
use spectrum_monitor::ais::message::{AisMessage, PositionReport, StaticData};
use spectrum_monitor::ais::nmea::{parse, sentences};
use spectrum_monitor::burst::{edge, BurstClock};
use spectrum_monitor::classify::{Class, CHANNELS, CLASSES, WINDOW};
use spectrum_monitor::frontend::spectrum::class_style;
use spectrum_monitor::order::{ascending_order, descending_order};
use spectrum_monitor::pipeline::handle;
use spectrum_monitor::store::{record, MessageLog};
use spectrum_monitor::text::{joined, lines};
use spectrum_monitor::train::data::{confusion, correct, example_seed};
use spectrum_monitor::train::onnx::{conv_shape, export, network, Weight, CONVS, HIDDEN, INPUT};
use std::collections::BTreeSet;
use tract_onnx::prelude::{
    DatumExt, Framework, InferenceModelExt, IntoRunnable, IntoTValue, TVec, Tensor,
};

fn position(mmsi: u32) -> AisMessage {
    AisMessage::Position(PositionReport {
        msg_type: 3,
        mmsi,
        nav_status: 5,
        sog: Some(1022),
        accurate: false,
        lon: Some(-107_999_999),
        lat: Some(-53_999_999),
        cog: Some(3599),
        heading: Some(359),
        second: 59,
    })
}

fn ship(mmsi: u32) -> AisMessage {
    AisMessage::Static(StaticData {
        mmsi,
        imo: 1,
        callsign: "D".into(),
        name: "SPROTTE".into(),
        ship_type: 30,
        dims: [14, 8, 3, 4],
        draught: 15,
        destination: String::new(),
    })
}

fn log(mmsi: u32, ts_ms: i64) -> MessageLog {
    MessageLog { ts_ms, channel: 'B', mmsi, msg_type: 3, nmea: vec![] }
}

#[test]
fn extreme_messages_survive() {
    for m in [position(0), position((1 << 30) - 1), ship(7)] {
        assert_eq!(AisMessage::decode(&m.encode()), Ok(m));
    }
}

#[test]
fn data_with_its_checksum_leave_the_good_rest() {
    let bits = build(&[true, false, false, true, false, true, false, false]);
    // No five ones in a row here, so nothing is stuffed.
    let body = &bits[TRAINING_BITS + 8..bits.len() - 8];
    assert_eq!(crc16(body), CRC_GOOD);
    for i in 0..body.len() {
        let mut wrong = body.to_vec();
        wrong[i] = !wrong[i];
        assert_ne!(crc16(&wrong), CRC_GOOD);
    }
}

#[test]
fn frame_is_found_after_anything() {
    let payload = position(211_990_001).encode();
    for noise in 0..64u32 {
        let mut d = Deframer::default();
        let mut got = Vec::new();
        for i in 0..6 {
            got.extend(d.push((noise >> i) & 1 == 1));
        }
        for b in build(&payload) {
            got.extend(d.push(b));
        }
        assert_eq!(got, vec![payload.clone()]);
    }
}

#[test]
fn level_sequence_can_begin_either_way() {
    let bits = [true, false, true, true, false, false];
    let l = nrzi(&bits);
    let back: Vec<bool> = (1..l.len()).map(|i| l[i] == l[i - 1]).collect();
    assert_eq!(back, bits[1..].to_vec());
}

#[test]
fn sentences_never_exceed_the_line() {
    for n in [0, 1, 6, 168, 360, 361, 424, 1008, 1280] {
        let s = sentences(&vec![true; n], 'B', 9);
        assert_eq!(s.len(), n.div_ceil(6).div_ceil(60).max(1));
        assert!(s.iter().all(|l| l.len() <= 82));
    }
}

#[test]
fn empty_payload_has_one_sentence() {
    let s = sentences(&[], 'A', 3);
    assert_eq!(s, vec!["!AIVDM,1,1,,A,,0*26"]);
    assert_eq!(parse(&s[0]), Some(vec![]));
}

#[test]
fn changed_characters_are_refused() {
    let line = "!AIVDM,1,1,,B,177KQJ5000G?tO`K>RA1wUbN0TKH,0*5C";
    assert!(parse(line).is_some());
    for i in 1..line.find('*').unwrap() {
        for c in 0..128u8 {
            let mut bytes = line.as_bytes().to_vec();
            if bytes[i] != c {
                bytes[i] = c;
                let changed = String::from_utf8(bytes).unwrap();
                assert_eq!(parse(&changed), None, "{changed:?}");
            }
        }
    }
}

#[test]
fn sequence_numbers_go_round() {
    let frame = spectrum_monitor::ais::demod::ReceivedFrame {
        channel: spectrum_monitor::ais::Channel::A,
        payload: ship(1).encode(),
    };
    let mut seq_id = 0;
    let mut seen = Vec::new();
    for _ in 0..12 {
        seq_id = handle(&frame, seq_id, 0).unwrap().seq_id;
        seen.push(seq_id);
    }
    assert_eq!(seen, vec![1, 2, 3, 4, 5, 6, 7, 8, 9, 0, 1, 2]);
}

#[test]
fn order_of_message_kinds_does_not_matter() {
    let a = record(&log(5, 1), Some(&position(5)), None, None).vessel;
    let ab = record(&log(5, 2), Some(&ship(5)), a, None).vessel;
    let b = record(&log(5, 1), Some(&ship(5)), None, None).vessel;
    let ba = record(&log(5, 2), Some(&position(5)), b, None).vessel;
    assert_eq!(ab, ba);
    let ab = ab.unwrap();
    assert_eq!((ab.messages, ab.lat, ab.beam_m), (2, Some(-53_999_999), Some(7)));
}

#[test]
fn repeated_message_only_counts() {
    let once = record(&log(5, 1), Some(&position(5)), None, None).vessel;
    let again = record(&log(5, 9), Some(&position(5)), once.clone(), None).vessel;
    let (once, mut twice) = (once.unwrap(), again.unwrap());
    assert_eq!((twice.messages, twice.last_seen_ms), (2, 9));
    twice.messages = 1;
    twice.last_seen_ms = 1;
    assert_eq!(once, twice);
}

#[test]
fn envelope_is_symmetric() {
    let e: Vec<usize> = (0..9).map(|p| edge(p, 9, 3)).collect();
    assert_eq!(e, vec![0, 1, 2, 3, 3, 3, 2, 1, 0]);
}

#[test]
fn every_sample_of_a_burst_is_sent_once() {
    let mut b = BurstClock::burst(4, 2, 0);
    let sent: Vec<usize> = (0..20).filter_map(|_| b.next()).map(|s| s.pos).collect();
    assert_eq!((sent, b.ramp), (vec![0, 1, 2, 3], 1));
}

#[test]
fn lines_come_back_as_they_were() {
    let parts: Vec<String> = ["!AIVDM,1", "!AIVDM,2", "x"].map(String::from).to_vec();
    assert_eq!(lines(&joined(&parts, '\n')), parts);
}

#[test]
fn sorting_is_stable_both_ways() {
    let keys = [2, 1, 2, 3, 1];
    assert_eq!(descending_order(&keys), vec![3, 0, 2, 1, 4]);
    assert_eq!(ascending_order(&keys), vec![1, 4, 0, 2, 3]);
}

#[test]
fn seeds_of_examples_differ() {
    let seeds: BTreeSet<u64> = (0..10_000).map(|i| example_seed(7, i)).collect();
    assert_eq!(seeds.len(), 10_000);
}

#[test]
fn diagonal_counts_what_was_recognised() {
    let truth: Vec<u32> = (0..60).map(|i| i % 6).collect();
    let found: Vec<usize> = (0..60).map(|i| i * i % 6).collect();
    let m = confusion(&truth, &found);
    assert_eq!((0..CLASSES).map(|i| m[i][i]).sum::<usize>(), correct(&truth, &found));
    assert_eq!(m.iter().flatten().sum::<usize>(), 60);
}

#[test]
fn styles_of_classes_differ() {
    let styles: BTreeSet<&str> = Class::ALL.iter().map(|c| class_style(c.label()).1).collect();
    assert_eq!(styles.len(), CLASSES);
}

#[test]
fn every_input_of_the_network_is_there() {
    let mut known: Vec<String> = vec![INPUT.into()];
    for n in network() {
        for i in &n.inputs {
            let weight = i.ends_with(".weight") || i.ends_with(".bias");
            assert!(weight || known.contains(i), "{i}");
        }
        known.push(n.output);
    }
    for i in 1..CONVS {
        assert_eq!(conv_shape(i).0, conv_shape(i - 1).1);
    }
}

/// A tensor of one value, but for its first element.
fn weight(name: &str, dims: &[usize], first: f32) -> Weight {
    let mut data = vec![0.0f32.to_bits(); dims.iter().product()];
    data[0] = first.to_bits();
    Weight { name: name.into(), dims: dims.to_vec(), data }
}

#[test]
fn exported_model_runs() {
    let mut weights = Vec::new();
    for i in 0..CONVS {
        let (cin, cout, k) = conv_shape(i);
        weights.push(weight(&format!("conv{i}.weight"), &[cout, cin, k], 0.0));
        weights.push(weight(&format!("conv{i}.bias"), &[cout], 0.0));
    }
    weights.push(weight("fc1.weight", &[HIDDEN, 2 * conv_shape(CONVS - 1).1], 0.0));
    weights.push(weight("fc1.bias", &[HIDDEN], 0.0));
    weights.push(weight("fc2.weight", &[CLASSES, HIDDEN], 0.0));
    // The first class has twice the weight of any other.
    weights.push(weight("fc2.bias", &[CLASSES], 2f32.ln()));
    let model = export(&weights, &[], "1");
    let plan = tract_onnx::onnx()
        .model_for_read(&mut model.as_slice())
        .unwrap()
        .with_input_fact(0, f32::fact([1, CHANNELS, WINDOW]).into())
        .unwrap()
        .into_optimized()
        .unwrap()
        .into_runnable()
        .unwrap();
    let input = Tensor::zero::<f32>(&[1, CHANNELS, WINDOW]).unwrap();
    let out = plan.run(TVec::from(vec![input.into_tvalue()])).unwrap();
    let probs: Vec<f32> = out[0].to_plain_array_view::<f32>().unwrap().iter().copied().collect();
    assert_eq!(probs.len(), CLASSES);
    assert!((probs[0] - 2.0 / 7.0).abs() < 1e-5, "{probs:?}");
    assert!(probs[1..].iter().all(|p| (p - 1.0 / 7.0).abs() < 1e-5), "{probs:?}");
}
