//! What is kept of the received messages: every message as NMEA, the track of
//! every ship, and the merged last state of every ship.

use crate::ais::message;
use crate::ais::message::AisMessage;
use crate::text;
use vstd::prelude::*;

verus! {

/// A received message as it is logged.
#[derive(Clone, Debug, PartialEq, Eq)]
pub struct MessageLog {
    pub ts_ms: i64,
    pub channel: char,
    pub mmsi: u32,
    pub msg_type: u8,
    pub nmea: Vec<String>,
}

/// Last known state of a ship, in the units of the air interface.
#[derive(Clone, Debug, PartialEq, Eq)]
pub struct Vessel {
    pub mmsi: u32,
    pub name: Option<String>,
    pub callsign: Option<String>,
    pub ship_type: Option<u8>,
    pub destination: Option<String>,
    pub length_m: Option<u16>,
    pub beam_m: Option<u16>,
    pub lat: Option<i64>,
    pub lon: Option<i64>,
    pub sog: Option<u64>,
    pub cog: Option<u64>,
    pub heading: Option<u16>,
    pub nav_status: Option<u8>,
    pub last_seen_ms: i64,
    pub messages: u64,
}

/// What a [`Vessel`] holds.
#[verifier::ext_equal]
pub struct VesselView {
    pub mmsi: u32,
    pub name: Option<Seq<char>>,
    pub callsign: Option<Seq<char>>,
    pub ship_type: Option<u8>,
    pub destination: Option<Seq<char>>,
    pub length_m: Option<u16>,
    pub beam_m: Option<u16>,
    pub lat: Option<i64>,
    pub lon: Option<i64>,
    pub sog: Option<u64>,
    pub cog: Option<u64>,
    pub heading: Option<u16>,
    pub nav_status: Option<u8>,
    pub last_seen_ms: i64,
    pub messages: u64,
}

/// View of an optional text.
pub open spec fn text_view(s: Option<String>) -> Option<Seq<char>> {
    match s {
        Some(t) => Some(t@),
        None => None,
    }
}

impl View for Vessel {
    type V = VesselView;

    open spec fn view(&self) -> VesselView {
        VesselView {
            mmsi: self.mmsi,
            name: text_view(self.name),
            callsign: text_view(self.callsign),
            ship_type: self.ship_type,
            destination: text_view(self.destination),
            length_m: self.length_m,
            beam_m: self.beam_m,
            lat: self.lat,
            lon: self.lon,
            sog: self.sog,
            cog: self.cog,
            heading: self.heading,
            nav_status: self.nav_status,
            last_seen_ms: self.last_seen_ms,
            messages: self.messages,
        }
    }
}

/// View of a stored row.
pub open spec fn row_view(v: Option<Vessel>) -> Option<VesselView> {
    match v {
        Some(x) => Some(x@),
        None => None,
    }
}

/// A point on the track of a ship.
#[derive(Clone, Copy, Debug, PartialEq, Eq)]
pub struct TrackRow {
    pub mmsi: u32,
    pub ts_ms: i64,
    pub lat: i64,
    pub lon: i64,
    pub sog: Option<u64>,
    pub cog: Option<u64>,
}

/// A ship of which nothing but its number is known.
pub open spec fn unknown(mmsi: u32) -> VesselView {
    VesselView {
        mmsi,
        name: None,
        callsign: None,
        ship_type: None,
        destination: None,
        length_m: None,
        beam_m: None,
        lat: None,
        lon: None,
        sog: None,
        cog: None,
        heading: None,
        nav_status: None,
        last_seen_ms: 0,
        messages: 0,
    }
}

/// A ship of which nothing but its number is known.
pub fn unknown_vessel(mmsi: u32) -> (v: Vessel)
    ensures
        v@ == unknown(mmsi),
        v.mmsi == mmsi,
        is_unknown(v),
{
    Vessel {
        mmsi,
        name: None,
        callsign: None,
        ship_type: None,
        destination: None,
        length_m: None,
        beam_m: None,
        lat: None,
        lon: None,
        sog: None,
        cog: None,
        heading: None,
        nav_status: None,
        last_seen_ms: 0,
        messages: 0,
    }
}

/// A ship from which one more evaluated message came.
pub open spec fn heard(row: Option<VesselView>, mmsi: u32, ts_ms: i64) -> VesselView {
    let v = match row {
        Some(v) => v,
        None => unknown(mmsi),
    };
    VesselView { last_seen_ms: ts_ms, messages: (v.messages + 1) as u64, ..v }
}

/// A ship with what a message says of it: a position report replaces what
/// moves, static data replace what does not.
pub open spec fn told(v: VesselView, msg: message::MessageView) -> VesselView {
    match msg {
        message::MessageView::Position(p) => VesselView {
            lat: p.lat,
            lon: p.lon,
            sog: p.sog,
            cog: p.cog,
            heading: p.heading,
            nav_status: Some(p.nav_status),
            ..v
        },
        message::MessageView::Static(s) => VesselView {
            name: Some(s.name),
            callsign: Some(s.callsign),
            ship_type: Some(s.ship_type),
            destination: Some(s.destination),
            length_m: Some((s.dims[0] + s.dims[1]) as u16),
            beam_m: Some((s.dims[2] + s.dims[3]) as u16),
            ..v
        },
    }
}

/// The new point on the track, if the message has a position.
pub open spec fn point_of(msg: message::MessageView, ts_ms: i64) -> Option<TrackRow> {
    match msg {
        message::MessageView::Position(p) => match (p.lat, p.lon) {
            (Some(lat), Some(lon)) => Some(
                TrackRow { mmsi: p.mmsi, ts_ms, lat, lon, sog: p.sog, cog: p.cog },
            ),
            _ => None,
        },
        message::MessageView::Static(_) => None,
    }
}

/// What is stored after a message.
pub struct Recorded {
    /// The ship from which the message came, if it is known.
    pub vessel: Option<Vessel>,
    /// The ship that the message speaks of, if that is another one and is
    /// known.
    pub other: Option<Vessel>,
    /// A new point on the track.
    pub point: Option<TrackRow>,
}

/// The dimensions of a ship can be added up.
pub open spec fn has_size(msg: message::MessageView) -> bool {
    match msg {
        message::MessageView::Static(s) => s.dims[0] + s.dims[1] <= u16::MAX && s.dims[2]
            + s.dims[3] <= u16::MAX,
        message::MessageView::Position(_) => true,
    }
}

/// Everything that moves is what the report says.
pub open spec fn is_where(v: Vessel, p: message::PositionReport) -> bool {
    &&& v.lat == p.lat
    &&& v.lon == p.lon
    &&& v.sog == p.sog
    &&& v.cog == p.cog
    &&& v.heading == p.heading
    &&& v.nav_status == Some(p.nav_status)
}

/// Everything that does not move is what the static data say; length and beam
/// are the sums of the distances to the antenna.
pub open spec fn is_named(v: Vessel, s: message::StaticData) -> bool {
    &&& v.name matches Some(t) && t@ == s.name@
    &&& v.callsign matches Some(t) && t@ == s.callsign@
    &&& v.ship_type == Some(s.ship_type)
    &&& v.destination matches Some(t) && t@ == s.destination@
    &&& v.length_m matches Some(m) && m == s.dims@[0] + s.dims@[1]
    &&& v.beam_m matches Some(m) && m == s.dims@[2] + s.dims@[3]
}

/// Both have the same place, speed, course, heading and status.
pub open spec fn is_as_before(v: Vessel, w: Vessel) -> bool {
    &&& v.lat == w.lat
    &&& v.lon == w.lon
    &&& v.sog == w.sog
    &&& v.cog == w.cog
    &&& v.heading == w.heading
    &&& v.nav_status == w.nav_status
}

/// Both have the same name, call sign, type, destination and size.
pub open spec fn is_same_ship(v: Vessel, w: Vessel) -> bool {
    &&& text_view(v.name) == text_view(w.name)
    &&& text_view(v.callsign) == text_view(w.callsign)
    &&& v.ship_type == w.ship_type
    &&& text_view(v.destination) == text_view(w.destination)
    &&& v.length_m == w.length_m
    &&& v.beam_m == w.beam_m
}

/// Both have the same number and counters.
pub open spec fn is_counted_as(v: Vessel, w: Vessel) -> bool {
    v.mmsi == w.mmsi && v.last_seen_ms == w.last_seen_ms && v.messages == w.messages
}

/// `v` is the ship `before` with what the message says of it.
pub open spec fn follows_message(v: Vessel, before: Vessel, msg: AisMessage) -> bool {
    match msg {
        AisMessage::Position(p) => is_where(v, p) && is_same_ship(v, before),
        AisMessage::Static(s) => is_named(v, s) && is_as_before(v, before),
    }
}

/// A ship of which nothing but its number is known.
pub open spec fn is_unknown(v: Vessel) -> bool {
    &&& v.name is None && v.callsign is None && v.ship_type is None && v.destination is None
    &&& v.length_m is None && v.beam_m is None && v.lat is None && v.lon is None && v.sog is None
    &&& v.cog is None && v.heading is None && v.nav_status is None && v.last_seen_ms == 0
    &&& v.messages == 0
}

/// The point on the track that a message gives.
pub open spec fn is_point(t: TrackRow, msg: AisMessage, ts_ms: i64) -> bool {
    msg matches AisMessage::Position(p) && {
        &&& t.mmsi == p.mmsi
        &&& t.ts_ms == ts_ms
        &&& p.lat == Some(t.lat)
        &&& p.lon == Some(t.lon)
        &&& t.sog == p.sog
        &&& t.cog == p.cog
    }
}

fn apply(v: Vessel, msg: &AisMessage) -> (r: Vessel)
    requires
        has_size(msg@),
    ensures
        r@ == told(v@, msg@),
        follows_message(r, v, *msg),
        is_counted_as(r, v),
{
    let mut r: Vessel = v;
    match msg {
        AisMessage::Position(p) => {
            r.lat = p.lat;
            r.lon = p.lon;
            r.sog = p.sog;
            r.cog = p.cog;
            r.heading = p.heading;
            r.nav_status = Some(p.nav_status);
        },
        AisMessage::Static(s) => {
            r.name = Some(text::copied(&s.name));
            r.callsign = Some(text::copied(&s.callsign));
            r.ship_type = Some(s.ship_type);
            r.destination = Some(text::copied(&s.destination));
            r.length_m = Some(s.length());
            r.beam_m = Some(s.beam());
        },
    }
    r
}

/// What is stored after a message, given what was stored of the ship
/// `log.mmsi` and, if the message speaks of another ship, of that one. Types
/// that are not evaluated land only in the message log: they leave the ship as
/// it is.
pub fn record(
    log: &MessageLog,
    msg: Option<&AisMessage>,
    row: Option<Vessel>,
    other: Option<Vessel>,
) -> (r: Recorded)
    requires
        row matches Some(v) ==> v.mmsi == log.mmsi,
        msg is Some ==> (row matches Some(v) ==> v.messages < u64::MAX),
        msg matches Some(m) ==> has_size(m@),
    ensures
        match msg {
            None => {
                &&& row_view(r.vessel) == row_view(row)
                &&& r.other is None
                &&& r.point is None
            },
            Some(m) => {
                &&& r.point == point_of(m@, log.ts_ms)
                &&& m@.mmsi() == log.mmsi ==> {
                    &&& row_view(r.vessel) == Some(
                        told(heard(row_view(row), log.mmsi, log.ts_ms), m@),
                    )
                    &&& r.other is None
                }
                &&& m@.mmsi() != log.mmsi ==> {
                    &&& row_view(r.vessel) == Some(heard(row_view(row), log.mmsi, log.ts_ms))
                    &&& row_view(r.other) == match row_view(other) {
                        Some(v) => Some(told(v, m@)),
                        None => None,
                    }
                }
            },
        },
        r.vessel matches Some(v) ==> v.mmsi == log.mmsi,
        msg matches Some(m) ==> {
            &&& r.vessel matches Some(v) && {
                &&& v.last_seen_ms == log.ts_ms
                &&& match row {
                    Some(before) => v.messages == before.messages + 1,
                    None => v.messages == 1,
                }
                &&& (*m)@.mmsi() == log.mmsi ==> match row {
                    Some(before) => follows_message(v, before, *m),
                    None => exists|before: Vessel| #[trigger]
                        is_unknown(before) && follows_message(v, before, *m),
                }
                &&& (*m)@.mmsi() != log.mmsi ==> match row {
                    Some(before) => is_as_before(v, before) && is_same_ship(v, before),
                    None => exists|before: Vessel| #[trigger]
                        is_unknown(before) && is_as_before(v, before) && is_same_ship(v, before),
                }
            }
            &&& r.other is Some <==> (*m)@.mmsi() != log.mmsi && other is Some
            &&& r.other matches Some(v) ==> {
                &&& follows_message(v, other.unwrap(), *m)
                &&& is_counted_as(v, other.unwrap())
            }
            &&& match r.point {
                Some(t) => is_point(t, *m, log.ts_ms),
                None => *m matches AisMessage::Position(p) ==> p.lat is None || p.lon is None,
            }
        },
{
    match msg {
        None => Recorded { vessel: row, other: None, point: None },
        Some(m) => {
            let mut vessel: Vessel = match row {
                Some(v) => v,
                None => unknown_vessel(log.mmsi),
            };
            let ghost before = vessel;
            assert(row is None ==> is_unknown(before));
            vessel.last_seen_ms = log.ts_ms;
            vessel.messages = vessel.messages + 1;
            let point: Option<TrackRow> = match m {
                AisMessage::Position(p) => match (p.lat, p.lon) {
                    (Some(lat), Some(lon)) => Some(
                        TrackRow {
                            mmsi: p.mmsi,
                            ts_ms: log.ts_ms,
                            lat,
                            lon,
                            sog: p.sog,
                            cog: p.cog,
                        },
                    ),
                    _ => None,
                },
                AisMessage::Static(_) => None,
            };
            if m.mmsi() == log.mmsi {
                Recorded { vessel: Some(apply(vessel, m)), other: None, point }
            } else {
                match other {
                    Some(v) => Recorded {
                        vessel: Some(vessel),
                        other: Some(apply(v, m)),
                        point,
                    },
                    None => Recorded { vessel: Some(vessel), other: None, point },
                }
            }
        },
    }
}

/// A position report says where the ship is: place, speed, course, heading and
/// status are each the one of the report.
pub proof fn law_position_is_stored(v: VesselView, p: message::PositionReport)
    ensures
        ({
            let r = told(v, message::MessageView::Position(p));
            &&& r.lat == p.lat
            &&& r.lon == p.lon
            &&& r.sog == p.sog
            &&& r.cog == p.cog
            &&& r.heading == p.heading
            &&& r.nav_status == Some(p.nav_status)
        }),
{
}

/// Static data say which ship it is: name, call sign, type and destination are
/// each the one of the message, length and beam the sums of the dimensions.
pub proof fn law_static_data_are_stored(v: VesselView, s: message::StaticView)
    requires
        s.dims[0] + s.dims[1] <= u16::MAX,
        s.dims[2] + s.dims[3] <= u16::MAX,
    ensures
        ({
            let r = told(v, message::MessageView::Static(s));
            &&& r.name == Some(s.name)
            &&& r.callsign == Some(s.callsign)
            &&& r.ship_type == Some(s.ship_type)
            &&& r.destination == Some(s.destination)
            &&& r.length_m matches Some(m) && m == s.dims[0] + s.dims[1]
            &&& r.beam_m matches Some(m) && m == s.dims[2] + s.dims[3]
        }),
{
}

/// The track of a ship grows by the place that a report gives, and only if it
/// gives both latitude and longitude.
pub proof fn law_track_shows_reported_place(msg: message::MessageView, ts_ms: i64)
    ensures
        match point_of(msg, ts_ms) {
            Some(t) => msg matches message::MessageView::Position(p) && {
                &&& t.mmsi == p.mmsi
                &&& t.ts_ms == ts_ms
                &&& p.lat == Some(t.lat)
                &&& p.lon == Some(t.lon)
                &&& t.sog == p.sog
                &&& t.cog == p.cog
            },
            None => msg matches message::MessageView::Position(p) ==> p.lat is None || p.lon
                is None,
        },
{
}

/// What the contracts say of a ship they say of its own fields.
pub proof fn law_vessel_view(v: Vessel)
    ensures
        v@.mmsi == v.mmsi,
        v@.name is Some <==> v.name is Some,
        v.name matches Some(t) ==> v@.name == Some(t@),
        v@.callsign is Some <==> v.callsign is Some,
        v.callsign matches Some(t) ==> v@.callsign == Some(t@),
        v@.ship_type == v.ship_type,
        v@.destination is Some <==> v.destination is Some,
        v.destination matches Some(t) ==> v@.destination == Some(t@),
        v@.length_m == v.length_m,
        v@.beam_m == v.beam_m,
        v@.lat == v.lat,
        v@.lon == v.lon,
        v@.sog == v.sog,
        v@.cog == v.cog,
        v@.heading == v.heading,
        v@.nav_status == v.nav_status,
        v@.last_seen_ms == v.last_seen_ms,
        v@.messages == v.messages,
{
}

/// Static data leave the position as it is, a position report leaves name,
/// type and size as they are, and neither changes number or counters.
pub proof fn law_message_kinds_are_independent(v: VesselView, msg: message::MessageView)
    ensures
        ({
            let r = told(v, msg);
            &&& (r.mmsi, r.last_seen_ms, r.messages) == (v.mmsi, v.last_seen_ms, v.messages)
            &&& msg is Static ==> (r.lat, r.lon, r.sog, r.cog, r.heading, r.nav_status) == (
                v.lat,
                v.lon,
                v.sog,
                v.cog,
                v.heading,
                v.nav_status,
            )
            &&& msg is Position ==> (
                r.name,
                r.callsign,
                r.ship_type,
                r.destination,
                r.length_m,
                r.beam_m,
            ) == (v.name, v.callsign, v.ship_type, v.destination, v.length_m, v.beam_m)
        }),
{
}

/// It does not matter whether the position or the static data came first.
pub proof fn law_position_and_static_data_merge(
    v: VesselView,
    p: message::PositionReport,
    s: message::StaticView,
)
    ensures
        told(told(v, message::MessageView::Position(p)), message::MessageView::Static(s)) == told(
            told(v, message::MessageView::Static(s)),
            message::MessageView::Position(p),
        ),
{
}

/// The same message twice says no more than once.
pub proof fn law_repetition_changes_nothing(v: VesselView, msg: message::MessageView)
    ensures
        told(told(v, msg), msg) == told(v, msg),
{
}

/// A ship after evaluated messages at the given times.
pub open spec fn heard_at(row: Option<VesselView>, mmsi: u32, times: Seq<i64>) -> Option<VesselView>
    decreases times.len(),
{
    if times.len() == 0 {
        row
    } else {
        Some(heard(heard_at(row, mmsi, times.drop_last()), mmsi, times.last()))
    }
}

/// Every evaluated message counts once, and the last one says when the ship was
/// seen.
pub proof fn law_messages_are_counted(mmsi: u32, times: Seq<i64>)
    requires
        0 < times.len() <= u64::MAX,
    ensures
        heard_at(None, mmsi, times) is Some,
        heard_at(None, mmsi, times).unwrap().messages == times.len(),
        heard_at(None, mmsi, times).unwrap().last_seen_ms == times.last(),
        heard_at(None, mmsi, times).unwrap().mmsi == mmsi,
    decreases times.len(),
{
    let before = times.drop_last();
    if times.len() > 1 {
        law_messages_are_counted(mmsi, before);
    } else {
        assert(heard_at(None, mmsi, before) is None);
    }
}

/// The text of a message's sentences, as it is stored: one per line.
pub fn stored_text(log: &MessageLog) -> (r: String)
    ensures
        r@ == text::join(text::views(log.nmea@), '\n'),
{
    text::joined(&log.nmea, '\n')
}

/// The first character of a stored channel name, or `?`.
pub fn stored_channel(name: &str) -> (c: char)
    ensures
        c == (if name@.len() > 0 {
            name@[0]
        } else {
            '?'
        }),
{
    let letters: Vec<char> = text::chars(name);
    if letters.len() > 0 {
        letters[0]
    } else {
        '?'
    }
}

/// A logged message as it was stored.
pub fn stored_message(
    ts_ms: i64,
    channel: &str,
    mmsi: u32,
    msg_type: u8,
    nmea: &str,
) -> (r: MessageLog)
    ensures
        r.ts_ms == ts_ms,
        r.channel == (if channel@.len() > 0 {
            channel@[0]
        } else {
            '?'
        }),
        r.mmsi == mmsi,
        r.msg_type == msg_type,
        text::views(r.nmea@) == text::lines_of(nmea@),
{
    MessageLog { ts_ms, channel: stored_channel(channel), mmsi, msg_type, nmea: text::lines(nmea) }
}

} // verus!
