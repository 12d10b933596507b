//! The AIS chain from fields to frames and sentences.

use spectrum_monitor::ais::bits::{to_bytes, BitReader, BitWriter};
use spectrum_monitor::ais::demod::{AisReceiver, ReceivedFrame};
use spectrum_monitor::ais::frame::{build, crc16, lsb_first, nrzi, Deframer, TRAINING_BITS};
use spectrum_monitor::ais::message::{
    peek_mmsi, AisMessage, DecodeError, PositionReport, StaticData,
};
use spectrum_monitor::ais::nmea::{armor, checksum, parse, sentences, unarmor};
use spectrum_monitor::ais::{modulate, Channel};

fn position() -> AisMessage {
    AisMessage::Position(PositionReport {
        msg_type: 1,
        mmsi: 211_234_560,
        nav_status: 0,
        sog: Some((12.3f32 * 10.0).round() as u64),
        accurate: true,
        lon: Some((10.1834f64 * 600_000.0).round() as i64),
        lat: Some((54.3721f64 * 600_000.0).round() as i64),
        cog: Some((17.5f32 * 10.0).round() as u64),
        heading: Some(18),
        second: 42,
    })
}

fn static_data() -> AisMessage {
    AisMessage::Static(StaticData {
        mmsi: 211_234_560,
        imo: 9_123_456,
        callsign: "DABC".into(),
        name: "FOERDE EXPRESS".into(),
        ship_type: 60,
        dims: [30, 40, 8, 8],
        draught: (4.2f32 * 10.0).round() as u64,
        destination: "KIEL".into(),
    })
}

#[test]
fn felder_ueberstehen_hin_und_rueckweg() {
    let mut w = BitWriter::default();
    w.uint(5, 6);
    w.signed(-12345, 28);
    w.text("KIEL 1", 8);
    let bits = w.into_bits();
    assert_eq!(bits.len(), 6 + 28 + 48);
    let mut r = BitReader::new(&bits);
    assert_eq!(r.uint(6), Some(5));
    assert_eq!(r.signed(28), Some(-12345));
    assert_eq!(r.text(8).as_deref(), Some("KIEL 1"));
    assert_eq!(r.uint(1), None);
}

#[test]
fn fields_are_written_most_significant_bit_first() {
    let mut w = BitWriter::default();
    w.uint(0b1011, 4);
    w.signed(-1, 3);
    w.uint(0xFF, 0);
    assert_eq!(w.into_bits(), vec![true, false, true, true, true, true, true]);
}

#[test]
fn text_loses_its_case_and_odd_characters() {
    let mut w = BitWriter::default();
    w.text("aZ_é~@", 7);
    let bits = w.into_bits();
    let mut r = BitReader::new(&bits);
    assert_eq!(r.text(7).as_deref(), Some("AZ_??"));
}

#[test]
fn short_text_consumes_whole_characters() {
    let bits = vec![false; 15];
    let mut r = BitReader::new(&bits);
    assert_eq!(r.text(3), None);
    assert_eq!(r.uint(3), Some(0));
    assert_eq!(r.uint(1), None);
}

#[test]
fn bits_fill_up_the_last_byte() {
    let bits = [true, false, false, false, false, false, false, true, true, true];
    assert_eq!(to_bytes(&bits), vec![0x81, 0xC0]);
    assert_eq!(to_bytes(&[]), Vec::<u8>::new());
}

#[test]
fn crc_entspricht_x25_pruefwert() {
    let bits: Vec<bool> = b"123456789".iter().flat_map(|&b| lsb_first(b)).collect();
    assert_eq!(!crc16(&bits), 0x906E);
}

fn decode_levels(levels: &[bool]) -> Vec<Vec<bool>> {
    let mut d = Deframer::default();
    let mut prev = false;
    levels
        .iter()
        .filter_map(|&l| {
            let bit = l == prev;
            prev = l;
            d.push(bit)
        })
        .collect()
}

#[test]
fn rahmen_ueberlebt_hin_und_rueckweg() {
    for msg in [position(), static_data()] {
        let payload = msg.encode();
        let frames = decode_levels(&nrzi(&build(&payload)));
        assert_eq!(frames, vec![payload]);
    }
}

#[test]
fn stuffing_verhindert_flags_in_den_daten() {
    let payload = vec![true; 168];
    let bits = build(&payload);
    let body = &bits[TRAINING_BITS + 8..bits.len() - 8];
    assert!(body.windows(6).all(|w| !w.iter().all(|&b| b)));
    assert_eq!(decode_levels(&nrzi(&bits)), vec![payload]);
}

#[test]
fn gekipptes_bit_wird_verworfen() {
    let mut levels = nrzi(&build(&position().encode()));
    let i = levels.len() / 2;
    // Inverting the level from here on flips exactly one NRZI bit.
    levels[i..].iter_mut().for_each(|l| *l = !*l);
    assert!(decode_levels(&levels).is_empty());
}

#[test]
fn frames_arrive_in_order_after_noise() {
    let (a, b) = (position().encode(), static_data().encode());
    let mut bits: Vec<bool> = (0..777).map(|i| i * i % 7 < 3).collect();
    bits.extend(build(&a));
    bits.extend(build(&b));
    let mut d = Deframer::default();
    let got: Vec<Vec<bool>> = bits.iter().filter_map(|&x| d.push(x)).collect();
    assert_eq!(got, vec![a, b]);
}

#[test]
fn frame_begins_with_training_and_flag() {
    let bits = build(&[]);
    assert!((0..24).all(|i| bits[i] == (i % 2 == 1)));
    assert_eq!(bits[24..32], [false, true, true, true, true, true, true, false]);
    assert_eq!(bits[bits.len() - 8..], [false, true, true, true, true, true, true, false]);
}

#[test]
fn nrzi_keeps_the_level_on_ones() {
    assert_eq!(nrzi(&[true, false, true, false, false]), vec![false, true, true, false, true]);
}

#[test]
fn receiver_hears_both_channels() {
    let (a, b) = (position().encode(), static_data().encode());
    let mut rx = AisReceiver::new();
    let got = rx.process(&modulate(&a), &modulate(&b));
    assert_eq!(
        got,
        vec![
            ReceivedFrame { channel: Channel::A, payload: a },
            ReceivedFrame { channel: Channel::B, payload: b },
        ]
    );
}

#[test]
fn receiver_carries_its_state_over_block_limits() {
    let payload = static_data().encode();
    let levels = modulate(&payload);
    let mut rx = AisReceiver::new();
    let mut got = Vec::new();
    for part in levels.chunks(37) {
        got.extend(rx.process(&[], part));
    }
    assert_eq!(got, vec![ReceivedFrame { channel: Channel::B, payload }]);
}

#[test]
fn zero_crossings_are_seen_once() {
    let mut rx = AisReceiver::new();
    assert!(rx.crossing(Channel::A, true));
    assert!(!rx.crossing(Channel::A, true));
    assert!(rx.crossing(Channel::B, true));
    assert!(rx.crossing(Channel::A, false));
}

#[test]
fn channels_have_frequency_and_letter() {
    assert_eq!((Channel::A.freq_hz(), Channel::A.letter()), (161_975_000, 'A'));
    assert_eq!((Channel::B.freq_hz(), Channel::B.letter()), (162_025_000, 'B'));
}

fn close(a: Option<i64>, b: f64) -> bool {
    (a.unwrap() as f64 / 600_000.0 - b).abs() < 1e-6
}

#[test]
fn positionsmeldung_ueberlebt_hin_und_rueckweg() {
    let msg = position();
    let bits = msg.encode();
    assert_eq!(bits.len(), 168);
    let AisMessage::Position(back) = AisMessage::decode(&bits).unwrap() else { panic!() };
    let AisMessage::Position(orig) = msg else { panic!() };
    assert!(close(back.lat, 54.3721) && close(back.lon, 10.1834));
    assert_eq!(back.sog.map(|v| v as f32 / 10.0), Some(12.3));
    assert_eq!(back.cog.map(|v| v as f32 / 10.0), Some(17.5));
    assert_eq!(
        (back.mmsi, back.sog, back.cog, back.heading),
        (orig.mmsi, orig.sog, orig.cog, orig.heading)
    );
}

#[test]
fn stammdaten_ueberleben_hin_und_rueckweg() {
    let msg = static_data();
    let bits = msg.encode();
    assert_eq!(bits.len(), 424);
    assert_eq!(AisMessage::decode(&bits).unwrap(), msg);
    assert_eq!(peek_mmsi(&bits), Some(211_234_560));
}

#[test]
fn unbekannter_typ_wird_gemeldet() {
    let mut w = BitWriter::default();
    w.uint(21, 6);
    w.uint(0, 162);
    assert_eq!(AisMessage::decode(&w.into_bits()), Err(DecodeError::Unsupported(21)));
}

#[test]
fn short_payloads_are_reported() {
    assert_eq!(AisMessage::decode(&[false; 5]), Err(DecodeError::TooShort));
    assert_eq!(AisMessage::decode(&position().encode()[..142]), Err(DecodeError::TooShort));
    assert!(AisMessage::decode(&position().encode()[..143]).is_ok());
    assert_eq!(AisMessage::decode(&static_data().encode()[..421]), Err(DecodeError::TooShort));
    assert!(AisMessage::decode(&static_data().encode()[..422]).is_ok());
    assert_eq!(peek_mmsi(&[true; 37]), None);
    assert_eq!(peek_mmsi(&[true; 38]), Some(0x3FFF_FFFF));
}

#[test]
fn missing_readings_stay_missing() {
    let msg = AisMessage::Position(PositionReport {
        msg_type: 3,
        mmsi: 1,
        nav_status: 15,
        sog: None,
        accurate: false,
        lon: None,
        lat: None,
        cog: None,
        heading: None,
        second: 60,
    });
    assert_eq!(AisMessage::decode(&msg.encode()), Ok(msg));
}

#[test]
fn ship_size_adds_up() {
    let AisMessage::Static(s) = static_data() else { panic!() };
    assert_eq!((s.length(), s.beam()), (70, 16));
    assert_eq!((static_data().mmsi(), static_data().msg_type()), (211_234_560, 5));
    assert_eq!((position().mmsi(), position().msg_type()), (211_234_560, 1));
}

#[test]
fn echter_satz_wird_gelesen() {
    // Example from the AIVDM/AIVDO protocol description by Eric S. Raymond.
    let bits =
        parse("!AIVDM,1,1,,B,177KQJ5000G?tO`K>RA1wUbN0TKH,0*5C").expect("a valid sentence");
    let AisMessage::Position(p) = AisMessage::decode(&bits).unwrap() else { panic!() };
    assert_eq!(p.mmsi, 477_553_000);
    assert_eq!(p.nav_status, 5);
    assert!((p.lat.unwrap() as f64 / 600_000.0 - 47.582833).abs() < 1e-5);
    assert!((p.lon.unwrap() as f64 / 600_000.0 - -122.345832).abs() < 1e-5);
    assert_eq!(p.heading, Some(181));
}

#[test]
fn eigene_saetze_sind_gueltig_und_kurz_genug() {
    let bits = static_data().encode();
    let s = sentences(&bits, 'A', 3);
    assert_eq!(s.len(), 2);
    assert!(s.iter().all(|l| l.len() <= 82 && l.starts_with("!AIVDM,2,")));
    assert!(
        s[1].contains(",2,")
            && s[1].ends_with(&format!("*{:02X}", checksum(&s[1][1..s[1].len() - 3])))
    );

    let single = sentences(&bits[..168], 'B', 0);
    assert_eq!(parse(&single[0]).unwrap(), bits[..168]);
}

#[test]
fn falsche_pruefsumme_wird_abgelehnt() {
    assert!(parse("!AIVDM,1,1,,B,177KQJ5000G?tO`K>RA1wUbN0TKH,0*5D").is_none());
}

#[test]
fn armour_is_taken_off_again() {
    for n in 0..30 {
        let bits: Vec<bool> = (0..n).map(|i| i % 3 == 0).collect();
        let (s, fill) = armor(&bits);
        assert_eq!(s.len(), (n + 5) / 6);
        assert_eq!(unarmor(&s, fill), Some(bits));
    }
    assert_eq!(armor(&[true, false, false, false, false, true]), ("Q".to_string(), 0));
    assert_eq!(armor(&[true]), ("P".to_string(), 5));
    assert_eq!(unarmor("x", 0), None);
    assert_eq!(unarmor("X", 0), None);
    assert_eq!(unarmor("0", 7), None);
    assert_eq!(unarmor("", 0), Some(vec![]));
}

#[test]
fn sentences_of_long_messages_are_linked() {
    let s = sentences(&static_data().encode(), 'A', 13);
    assert!(s[0].starts_with("!AIVDM,2,1,3,A,"));
    assert!(s[1].starts_with("!AIVDM,2,2,3,A,"));
    assert!(s.iter().all(|l| parse(l).is_none()));
    assert_eq!(sentences(&[], 'A', 0).len(), 1);
    assert!(sentences(&[true; 360], 'B', 7)[0].starts_with("!AIVDM,1,1,,B,"));
    assert_eq!(sentences(&[true; 361], 'B', 7).len(), 2);
}

#[test]
fn odd_lines_are_read_as_far_as_they_are_valid() {
    // Lower case digits, a plus sign and white space around the checksum.
    let line = "!AIVDM,1,1,,B,177KQJ5000G?tO`K>RA1wUbN0TKH,+0*";
    let sum = checksum(&line[1..line.len() - 1]);
    assert!(parse(&format!("{line}\u{a0} +{sum:x}\r\n")).is_some());
    assert!(parse(&format!("{line}{sum:x}0")).is_none());
    assert!(parse("AIVDM,1,1,,B,177,0*5C").is_none());
    assert!(parse("!AIVDM,1,1,,B,177,0").is_none());
    assert!(parse("").is_none());
    assert_eq!(checksum("AB"), 3);
    assert_eq!(checksum("ä"), 0xC3 ^ 0xA4);
}
