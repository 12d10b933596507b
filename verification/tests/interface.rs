//! What the interface shows and does.

use spectrum_monitor::frontend::app::{log_fetched, log_new, upsert, LOG_LEN};
use spectrum_monitor::frontend::format::{
    age, clock, dbfs, knots, lat_lon, mhz, num, Angle,
};
use spectrum_monitor::frontend::geo::{visible_tiles, zoomed, Tile};
use spectrum_monitor::frontend::live::{ws_url, Link, LinkAction, LinkEvent};
use spectrum_monitor::frontend::map::{
    category, dimensions, extend_track, find_vessel, is_stale, is_under_way, log_line, map_key,
    or_dash, position_of, ship_class, Drag, MapKey, TrackPoint, Wheel,
};
use spectrum_monitor::frontend::spectrum::{
    class_style, detector_text, event_text, hold_step, marker_key, pixel_bins, Hold,
};
use spectrum_monitor::scanner::SignalEventKind;
use spectrum_monitor::store::{unknown_vessel, MessageLog, Vessel};

fn log(mmsi: u32, ts_ms: i64) -> MessageLog {
    MessageLog { ts_ms, channel: 'A', mmsi, msg_type: 1, nmea: vec![] }
}

fn vessel(mmsi: u32, ts_ms: i64) -> Vessel {
    Vessel { last_seen_ms: ts_ms, messages: 1, ..unknown_vessel(mmsi) }
}

#[test]
fn tiles_wrap_around_the_world() {
    let t = |z, x, y| Tile { z, x, y }.url();
    assert_eq!(t(3, 5, 2), "https://tile.openstreetmap.org/3/5/2.png");
    assert_eq!(t(3, -1, 2), "https://tile.openstreetmap.org/3/7/2.png");
    assert_eq!(t(3, 17, 2), "https://tile.openstreetmap.org/3/1/2.png");
    assert_eq!(t(12, 0, -3), "https://tile.openstreetmap.org/12/0/-3.png");
    assert_eq!(t(0, i64::MIN, 0), "https://tile.openstreetmap.org/0/0/0.png");
}

#[test]
fn view_is_covered_row_by_row() {
    let tiles = visible_tiles(-1, 0, -5, 1, 3);
    let places: Vec<(i64, i64)> = tiles.iter().map(|t| (t.x, t.y)).collect();
    assert_eq!(places, vec![(-1, 0), (0, 0), (-1, 1), (0, 1)]);
    assert_eq!(visible_tiles(0, 0, 6, 99, 3).len(), 2);
    assert!(visible_tiles(1, 0, 0, 1, 3).is_empty());
    assert!(visible_tiles(0, 0, 9, 9, 3).is_empty());
}

#[test]
fn zoom_has_limits() {
    assert_eq!((zoomed(12, 1), zoomed(18, 1), zoomed(3, -1), zoomed(4, -1)), (13, 18, 3, 3));
}

#[test]
fn numbers_are_german() {
    assert_eq!(num("-1.50"), "−1,50");
    assert_eq!(mhz("162.000"), "162,000 MHz");
    assert_eq!(dbfs("-20.0"), "−20,0 dBFS");
    assert_eq!(knots("12.3"), "12,3 kn");
    assert_eq!(clock(7, 5, 42), "07:05:42");
    let ages: Vec<String> =
        [-1, 999, 59_999, 60_000, 3_599_999, 7_200_000].iter().map(|&ms| age(1_000 + ms, 1_000)).collect();
    assert_eq!(ages, vec!["vor 0 s", "vor 0 s", "vor 59 s", "vor 1 min", "vor 59 min", "vor 2 h"]);
    assert_eq!(age(i64::MIN, i64::MAX), "vor 0 s");
    let lat = Angle { degrees: 54, minutes: "22.334".into(), negative: false };
    let lon = Angle { degrees: 10, minutes: "8.900".into(), negative: true };
    assert_eq!(lat_lon(&lat, &lon), "54° 22,334′ N  010° 8,900′ W");
}

#[test]
fn ships_are_kept_by_number() {
    let mut list = Vec::new();
    for (mmsi, ts) in [(5, 10), (2, 10), (9, 10), (5, 20), (2, 5), (9, 10)] {
        upsert(&mut list, vessel(mmsi, ts));
    }
    let got: Vec<(u32, i64)> = list.iter().map(|v| (v.mmsi, v.last_seen_ms)).collect();
    assert_eq!(got, vec![(2, 10), (5, 20), (9, 10)]);
    assert_eq!((find_vessel(&list, 5), find_vessel(&list, 4)), (Some(1), None));
}

#[test]
fn log_has_the_newest_first() {
    let mut l: Vec<MessageLog> = Vec::new();
    for t in 0..105 {
        log_new(&mut l, log(1, 100 + t));
    }
    assert_eq!((l.len(), l[0].ts_ms, l[99].ts_ms), (LOG_LEN, 204, 105));
    l.truncate(2);
    log_fetched(&mut l, vec![log(1, 204), log(1, 203), log(1, 202), log(1, 7)]);
    let times: Vec<i64> = l.iter().map(|e| e.ts_ms).collect();
    assert_eq!(times, vec![204, 203, 202, 7]);
    let mut empty: Vec<MessageLog> = Vec::new();
    log_fetched(&mut empty, (0..200).map(|t| log(1, -t)).collect());
    assert_eq!(empty.len(), LOG_LEN);
}

#[test]
fn connection_is_reported_with_its_first_message() {
    let mut l = Link { heard: false };
    let act = |report, deliver, retry_ms| LinkAction { report, deliver, retry_ms };
    assert_eq!(l.connect(LinkEvent::Opened), act(None, false, None));
    assert_eq!(l.connect(LinkEvent::Message), act(Some(true), true, None));
    assert_eq!(l.connect(LinkEvent::Message), act(None, true, None));
    assert_eq!(l.connect(LinkEvent::Broken), act(Some(false), false, Some(2000)));
    assert_eq!(l.connect(LinkEvent::Broken), act(Some(false), false, Some(2000)));
    assert_eq!(ws_url("https:", "host:1", "/ws"), "wss://host:1/ws");
    assert_eq!(ws_url("http:", "host", "/ws/ais"), "ws://host/ws/ais");
}

#[test]
fn ships_have_a_style() {
    let names: Vec<&str> =
        [59, 60, 69, 70, 80, 89, 90].iter().map(|&t| category(Some(t))).collect();
    assert_eq!(names, vec!["other", "passenger", "passenger", "cargo", "tanker", "tanker", "other"]);
    assert_eq!(category(None), "other");
    assert_eq!(ship_class(Some(70), true, true), "ship cargo selected stale");
    assert_eq!(ship_class(None, false, false), "ship other");
}

#[test]
fn keys_move_chart_and_marker() {
    assert_eq!(map_key("ArrowLeft"), Some(MapKey::Pan { dx: 100, dy: 0 }));
    assert_eq!(map_key("ArrowDown"), Some(MapKey::Pan { dx: 0, dy: -100 }));
    assert_eq!(map_key("="), Some(MapKey::Zoom { delta: 1 }));
    assert_eq!(map_key("-"), Some(MapKey::Zoom { delta: -1 }));
    assert_eq!(map_key("Enter"), None);
    assert_eq!((marker_key("ArrowLeft"), marker_key("ArrowRight"), marker_key("a")), (Some(-1), Some(1), None));
}

#[test]
fn small_movements_are_clicks() {
    let mut d = Drag { held: false, moved: false };
    assert!(!d.motion(false));
    d.press(true);
    assert!(!d.motion(true) && d.clicks());
    assert!(d.motion(false) && d.motion(true) && !d.clicks());
    d.release();
    assert!(!d.motion(false));
    d.press(false);
    assert!(!d.held && d.clicks());
}

#[test]
fn wheel_zooms_once_in_a_while() {
    let mut w = Wheel { last_ms: 0 };
    assert_eq!((w.turn(1_000, -1), w.turn(1_149, -1), w.turn(1_150, 1)), (Some(1), None, Some(-1)));
    assert_eq!((w.turn(2_000, 0), w.last_ms), (None, 1_150));
}

#[test]
fn silent_ships_are_pale_and_slow_ones_round() {
    assert!(!is_stale(300_000, 0) && is_stale(300_001, 0) && !is_stale(i64::MIN, i64::MAX));
    let mut v = vessel(1, 9);
    assert!(!is_under_way(&v));
    v.sog = Some(5);
    assert!(!is_under_way(&v));
    v.sog = Some(6);
    assert!(is_under_way(&v));
}

#[test]
fn track_grows_only_by_movement() {
    let p = |ts_ms, lat| TrackPoint { ts_ms, lat, lon: 3 };
    let mut t = Vec::new();
    for point in [p(1, 5), p(2, 5), p(3, 6), p(4, 5)] {
        extend_track(&mut t, point);
    }
    assert_eq!(t, vec![p(1, 5), p(3, 6), p(4, 5)]);
    let mut v = vessel(1, 9);
    assert_eq!(position_of(&v), None);
    (v.lat, v.lon) = (Some(5), Some(3));
    assert_eq!(position_of(&v), Some(p(9, 5)));
}

#[test]
fn details_have_a_dash_for_nothing() {
    assert_eq!((or_dash(&None), or_dash(&Some(String::new()))), ("–".into(), "–".into()));
    assert_eq!(or_dash(&Some("KIEL".into())), "KIEL");
    assert_eq!(dimensions(Some(70), Some(16)), "70 × 16 m");
    assert_eq!(dimensions(Some(70), None), "–");
    assert_eq!(log_line("07:05:42", 'B', 5), "07:05:42 · Kanal B · Typ 5");
}

#[test]
fn classes_and_events_have_words() {
    assert_eq!(class_style("Träger"), ("#b9a6e8", "cls-carrier"));
    assert_eq!(class_style("AM").1, "cls-am");
    assert_eq!(class_style("FM").1, "cls-fm");
    assert_eq!(class_style("GMSK").1, "cls-gmsk");
    assert_eq!(class_style("QPSK").1, "cls-qpsk");
    assert_eq!(class_style("Rauschen"), ("#7f9ab0", "cls-noise"));
    assert_eq!(event_text(SignalEventKind::Reclassified), "neu eingestuft");
    assert_eq!(event_text(SignalEventKind::Appeared), "neu");
    assert_eq!(event_text(SignalEventKind::Lost), "verschwunden");
    assert_eq!(
        (detector_text(Some("Peak")), detector_text(Some("Avg")), detector_text(None)),
        ("Spitze", "Mittelwert", "–")
    );
}

#[test]
fn pixels_show_all_bins() {
    let all: Vec<(usize, usize)> = (0..4).map(|x| pixel_bins(x, 4, 10)).collect();
    assert_eq!(all, vec![(0, 2), (2, 5), (5, 7), (7, 10)]);
    let few: Vec<(usize, usize)> = (0..4).map(|x| pixel_bins(x, 4, 2)).collect();
    assert_eq!(few, vec![(0, 1), (0, 1), (1, 2), (1, 2)]);
}

#[test]
fn maximum_is_held_for_spectra_of_one_size() {
    assert_eq!(hold_step(false, Some(4), 4), Hold::Keep);
    assert_eq!(hold_step(true, None, 4), Hold::Replace);
    assert_eq!(hold_step(true, Some(3), 4), Hold::Replace);
    assert_eq!(hold_step(true, Some(4), 4), Hold::Merge);
}
