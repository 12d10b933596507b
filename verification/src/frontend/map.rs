//! The chart with ship positions.

use crate::store::Vessel;
use crate::text;
use vstd::prelude::*;

verus! {

/// Kind of a ship by its type.
#[derive(Clone, Copy, Debug, PartialEq, Eq, Structural)]
pub enum Category {
    Passenger,
    Cargo,
    Tanker,
    Other,
}

/// Kind of a ship by its type.
pub open spec fn category_of(ship_type: Option<u8>) -> Category {
    match ship_type {
        Some(t) => if 60 <= t <= 69 {
            Category::Passenger
        } else if 70 <= t <= 79 {
            Category::Cargo
        } else if 80 <= t <= 89 {
            Category::Tanker
        } else {
            Category::Other
        },
        None => Category::Other,
    }
}

/// Style name of a kind.
pub open spec fn category_name(c: Category) -> Seq<char> {
    match c {
        Category::Passenger => "passenger"@,
        Category::Cargo => "cargo"@,
        Category::Tanker => "tanker"@,
        Category::Other => "other"@,
    }
}

/// Style name of the kind of a ship.
pub fn category(ship_type: Option<u8>) -> (s: &'static str)
    ensures
        s@ == category_name(category_of(ship_type)),
{
    match ship_type {
        Some(t) => if 60 <= t && t <= 69 {
            "passenger"
        } else if 70 <= t && t <= 79 {
            "cargo"
        } else if 80 <= t && t <= 89 {
            "tanker"
        } else {
            "other"
        },
        None => "other",
    }
}

/// Style of a ship on the chart.
pub open spec fn ship_style(c: Category, selected: bool, stale: bool) -> Seq<char> {
    "ship "@ + category_name(c) + (if selected {
        " selected"@
    } else {
        Seq::empty()
    }) + (if stale {
        " stale"@
    } else {
        Seq::empty()
    })
}

/// Style of a ship on the chart; without a message for long it is pale.
pub fn ship_class(ship_type: Option<u8>, selected: bool, stale: bool) -> (r: String)
    ensures
        r@ == ship_style(category_of(ship_type), selected, stale),
{
    let mut r = String::new();
    text::push_str(&mut r, "ship ");
    text::push_str(&mut r, category(ship_type));
    if selected {
        text::push_str(&mut r, " selected");
    }
    if stale {
        text::push_str(&mut r, " stale");
    }
    assert(r@ =~= ship_style(category_of(ship_type), selected, stale));
    r
}

/// What a key does to the chart.
#[derive(Clone, Copy, Debug, PartialEq, Eq, Structural)]
pub enum MapKey {
    /// Move the chart by pixels to the right and down.
    Pan { dx: i32, dy: i32 },
    Zoom { delta: i8 },
}

/// What a key does to the chart.
pub open spec fn key_effect(key: Seq<char>) -> Option<MapKey> {
    if key == "ArrowLeft"@ {
        Some(MapKey::Pan { dx: 100, dy: 0 })
    } else if key == "ArrowRight"@ {
        Some(MapKey::Pan { dx: -100i32, dy: 0 })
    } else if key == "ArrowUp"@ {
        Some(MapKey::Pan { dx: 0, dy: 100 })
    } else if key == "ArrowDown"@ {
        Some(MapKey::Pan { dx: 0, dy: -100i32 })
    } else if key == "+"@ || key == "="@ {
        Some(MapKey::Zoom { delta: 1 })
    } else if key == "-"@ {
        Some(MapKey::Zoom { delta: -1i8 })
    } else {
        None
    }
}

/// What a key does to the chart; `None` leaves it to the browser.
pub fn map_key(key: &str) -> (r: Option<MapKey>)
    ensures
        r == key_effect(key@),
{
    if text::same(key, "ArrowLeft") {
        Some(MapKey::Pan { dx: 100, dy: 0 })
    } else if text::same(key, "ArrowRight") {
        Some(MapKey::Pan { dx: -100, dy: 0 })
    } else if text::same(key, "ArrowUp") {
        Some(MapKey::Pan { dx: 0, dy: 100 })
    } else if text::same(key, "ArrowDown") {
        Some(MapKey::Pan { dx: 0, dy: -100 })
    } else if text::same(key, "+") || text::same(key, "=") {
        Some(MapKey::Zoom { delta: 1 })
    } else if text::same(key, "-") {
        Some(MapKey::Zoom { delta: -1 })
    } else {
        None
    }
}

/// State of the pointer: whether it holds the chart, and whether it has moved
/// since it was pressed.
#[derive(Clone, Copy, Debug, PartialEq, Eq, Structural)]
pub struct Drag {
    pub held: bool,
    pub moved: bool,
}

impl Drag {
    /// The pointer is pressed; only its main button holds the chart.
    pub fn press(&mut self, main: bool)
        ensures
            !final(self).moved,
            final(self).held == (main || old(self).held),
    {
        self.moved = false;
        if main {
            self.held = true;
        }
    }

    /// The pointer moves; whether the chart moves with it. Small movements
    /// still count as a click.
    pub fn motion(&mut self, small: bool) -> (pan: bool)
        ensures
            pan == (old(self).held && (old(self).moved || !small)),
            final(self).held == old(self).held,
            final(self).moved == (old(self).moved || pan),
    {
        if !self.held {
            return false;
        }
        if !self.moved && small {
            return false;
        }
        self.moved = true;
        true
    }

    /// The pointer is released or leaves.
    pub fn release(&mut self)
        ensures
            !final(self).held,
            final(self).moved == old(self).moved,
    {
        self.held = false;
    }

    /// Whether a click selects: not after the chart was moved.
    pub fn clicks(&self) -> (r: bool)
        ensures
            r == !self.moved,
    {
        !self.moved
    }
}

/// After five minutes without a message a ship is shown pale.
pub const STALE_MS: i64 = 300_000;

/// Whether a ship has been silent for so long that it is shown pale.
pub fn is_stale(now_ms: i64, last_seen_ms: i64) -> (r: bool)
    ensures
        r == (now_ms - last_seen_ms > STALE_MS),
{
    now_ms as i128 - last_seen_ms as i128 > STALE_MS as i128
}

/// Whether a ship moves, so that its symbol points where it goes: faster than
/// half a knot.
pub fn is_under_way(v: &Vessel) -> (r: bool)
    ensures
        r == (v.sog matches Some(tenths) && tenths > 5),
{
    match v.sog {
        Some(tenths) => tenths > 5,
        None => false,
    }
}

/// Touchpads deliver many small turns of the wheel; one step in this time.
pub const WHEEL_MS: i64 = 150;

/// When the wheel last changed the zoom.
#[derive(Clone, Copy, Debug, PartialEq, Eq, Structural)]
pub struct Wheel {
    pub last_ms: i64,
}

/// What a turn of the wheel does to the zoom: nothing too soon after the last
/// step, otherwise one step closer upwards and one step away downwards.
pub open spec fn wheel_step(last_ms: int, now_ms: int, direction: int) -> Option<i8> {
    if now_ms - last_ms < WHEEL_MS || direction == 0 {
        None
    } else if direction < 0 {
        Some(1)
    } else {
        Some(-1i8)
    }
}

impl Wheel {
    /// The wheel turns, upwards with a negative direction.
    pub fn turn(&mut self, now_ms: i64, direction: i8) -> (delta: Option<i8>)
        ensures
            delta == wheel_step(old(self).last_ms as int, now_ms as int, direction as int),
            final(self).last_ms == if delta is Some {
                now_ms
            } else {
                old(self).last_ms
            },
    {
        if now_ms as i128 - (self.last_ms as i128) < (WHEEL_MS as i128) || direction == 0 {
            return None;
        }
        self.last_ms = now_ms;
        Some(
            if direction < 0 {
                1
            } else {
                -1
            },
        )
    }
}

/// A point on the shown track.
#[derive(Clone, Copy, Debug, PartialEq, Eq, Structural)]
pub struct TrackPoint {
    pub ts_ms: i64,
    pub lat: i64,
    pub lon: i64,
}

/// Where a ship is now.
pub open spec fn position_now(last_seen_ms: i64, lat: Option<i64>, lon: Option<i64>) -> Option<
    TrackPoint,
> {
    match (lat, lon) {
        (Some(a), Some(b)) => Some(TrackPoint { ts_ms: last_seen_ms, lat: a, lon: b }),
        _ => None,
    }
}

/// Where a ship is now, if that is known.
pub fn position_of(v: &Vessel) -> (r: Option<TrackPoint>)
    ensures
        r == position_now(v.last_seen_ms, v.lat, v.lon),
{
    match (v.lat, v.lon) {
        (Some(lat), Some(lon)) => Some(TrackPoint { ts_ms: v.last_seen_ms, lat, lon }),
        _ => None,
    }
}

/// A track with one more point, unless the ship has not moved.
pub open spec fn extended(track: Seq<TrackPoint>, p: TrackPoint) -> Seq<TrackPoint> {
    if track.len() > 0 && track.last().lat == p.lat && track.last().lon == p.lon {
        track
    } else {
        track.push(p)
    }
}

/// Appends a point to a track, unless the ship has not moved.
pub fn extend_track(track: &mut Vec<TrackPoint>, p: TrackPoint)
    ensures
        final(track)@ == extended(old(track)@, p),
{
    let n: usize = track.len();
    if n > 0 && track[n - 1].lat == p.lat && track[n - 1].lon == p.lon {
        return ;
    }
    track.push(p);
}

/// Two points of a track in a row are different places.
pub open spec fn is_moving(track: Seq<TrackPoint>) -> bool {
    forall|i: int|
        0 < i < track.len() ==> (#[trigger] track[i]).lat != track[i - 1].lat || track[i].lon
            != track[i - 1].lon
}

/// A track without repeated places stays so.
pub proof fn law_track_has_no_repetition(track: Seq<TrackPoint>, p: TrackPoint)
    requires
        is_moving(track),
    ensures
        is_moving(extended(track, p)),
{
    let r = extended(track, p);
    assert forall|i: int| 0 < i < r.len() implies (#[trigger] r[i]).lat != r[i - 1].lat || r[i].lon
        != r[i - 1].lon by {
        if i < track.len() {
            assert(track[i].lat != track[i - 1].lat || track[i].lon != track[i - 1].lon);
        }
    }
}

/// A text, or a dash if there is none or it is empty.
pub open spec fn or_dash_of(s: Option<Seq<char>>) -> Seq<char> {
    match s {
        Some(t) => if t.len() > 0 {
            t
        } else {
            "–"@
        },
        None => "–"@,
    }
}

/// A text, or a dash if there is none or it is empty.
pub fn or_dash(s: &Option<String>) -> (r: String)
    ensures
        r@ == or_dash_of(crate::store::text_view(*s)),
{
    match s {
        Some(t) => {
            let letters: Vec<char> = text::chars(t);
            if letters.len() > 0 {
                return text::string(&letters);
            }
            text::copied("–")
        },
        None => text::copied("–"),
    }
}

/// Length and width of a ship, or a dash if one of them is not known.
pub open spec fn size_text(length_m: Option<u16>, beam_m: Option<u16>) -> Seq<char> {
    match (length_m, beam_m) {
        (Some(l), Some(b)) => text::decimal(l as nat) + " × "@ + text::decimal(b as nat) + " m"@,
        _ => "–"@,
    }
}

/// Length and width of a ship in words.
pub fn dimensions(length_m: Option<u16>, beam_m: Option<u16>) -> (r: String)
    ensures
        r@ == size_text(length_m, beam_m),
{
    match (length_m, beam_m) {
        (Some(l), Some(b)) => {
            let mut r = String::new();
            text::push_decimal(&mut r, l as u64);
            text::push_str(&mut r, " × ");
            text::push_decimal(&mut r, b as u64);
            text::push_str(&mut r, " m");
            assert(r@ =~= text::decimal(l as nat) + " × "@ + text::decimal(b as nat) + " m"@);
            r
        },
        _ => text::copied("–"),
    }
}

/// Place of a ship in a list by its number.
pub fn find_vessel(list: &[Vessel], mmsi: u32) -> (r: Option<usize>)
    ensures
        match r {
            Some(i) => i < list@.len() && list@[i as int].mmsi == mmsi && forall|j: int|
                0 <= j < i ==> (#[trigger] list@[j]).mmsi != mmsi,
            None => forall|j: int| 0 <= j < list@.len() ==> (#[trigger] list@[j]).mmsi != mmsi,
        },
{
    let mut i: usize = 0;
    while i < list.len()
        invariant
            i <= list@.len(),
            forall|j: int| 0 <= j < i ==> (#[trigger] list@[j]).mmsi != mmsi,
        decreases list@.len() - i,
    {
        if list[i].mmsi == mmsi {
            return Some(i);
        }
        i += 1;
    }
    None
}

/// Heading of a log entry.
pub open spec fn log_heading(clock: Seq<char>, channel: char, msg_type: nat) -> Seq<char> {
    clock + " · Kanal "@ + seq![channel] + " · Typ "@ + text::decimal(msg_type)
}

/// Heading of a log entry.
pub fn log_line(clock: &str, channel: char, msg_type: u8) -> (r: String)
    ensures
        r@ == log_heading(clock@, channel, msg_type as nat),
{
    let mut r = String::new();
    text::push_str(&mut r, clock);
    text::push_str(&mut r, " · Kanal ");
    r.push(channel);
    text::push_str(&mut r, " · Typ ");
    text::push_decimal(&mut r, msg_type as u64);
    assert(r@ =~= log_heading(clock@, channel, msg_type as nat));
    r
}

/// The track of a ship ends where the ship is: a new place is appended, and the
/// place where it ends already is not repeated.
pub proof fn law_track_ends_at_ship(track: Seq<TrackPoint>, p: TrackPoint)
    ensures
        ({
            let r = extended(track, p);
            &&& r.len() > 0
            &&& (r.last().lat, r.last().lon) == (p.lat, p.lon)
            &&& r == track || r == track.push(p)
            &&& track.len() > 0 && (track.last().lat, track.last().lon) == (p.lat, p.lon) <==> r
                == track
        }),
{
    assert(track.push(p).len() != track.len());
}

/// A ship is where its last report said, if it said both latitude and longitude.
pub proof fn law_position_is_the_last_one(last_seen_ms: i64, lat: Option<i64>, lon: Option<i64>)
    ensures
        match position_now(last_seen_ms, lat, lon) {
            Some(p) => p.ts_ms == last_seen_ms && lat == Some(p.lat) && lon == Some(p.lon),
            None => lat is None || lon is None,
        },
{
}

/// The first digit of a ship type decides its category: 6 carries passengers, 7
/// cargo, 8 is a tanker.
pub proof fn law_first_digit_decides(t: u8)
    ensures
        category_of(Some(t)) == Category::Passenger <==> t / 10 == 6,
        category_of(Some(t)) == Category::Cargo <==> t / 10 == 7,
        category_of(Some(t)) == Category::Tanker <==> t / 10 == 8,
        category_of(None) == Category::Other,
{
}

} // verus!
