//! Simulated ships in the Kiel fjord. Names and numbers are invented. The
//! waypoints lie in the water, and the reporting intervals are shorter than in
//! the standard, so that the chart fills quickly.

use super::frame;
use super::message;
use super::message_laws;
use super::message::{AisMessage, PositionReport, StaticData};
use super::Channel;
use crate::order;
use crate::text;
use vstd::prelude::*;

verus! {

/// A waypoint: latitude and longitude in ten-thousandths of a degree.
pub type Waypoint = (i64, i64);

/// Where a ship sails.
#[derive(Clone, Copy, Debug, PartialEq, Eq, Structural)]
pub enum Course {
    Fairway,
    Canal,
    Ferry,
    Anchorage,
    Fishing,
    Sailing,
}

/// The marks of a course.
pub open spec fn marks(c: Course) -> Seq<Waypoint> {
    match c {
        Course::Fairway => seq![
            (543195, 101445),
            (543280, 101560),
            (543452, 101650),
            (543600, 101720),
            (543750, 101800),
            (543870, 101960),
            (543970, 102060),
            (544080, 102070),
            (544300, 102350),
            (544600, 102600),
            (545000, 102750),
        ],
        Course::Canal => seq![
            (543650, 101570),
            (543680, 101680),
            (543750, 101800),
            (543870, 101960),
            (543970, 102060),
            (544080, 102070),
            (544300, 102350),
            (544700, 102900),
        ],
        Course::Ferry => seq![
            (543209, 101434),
            (543302, 101548),
            (543500, 101690),
            (543740, 101830),
            (543860, 101990),
            (544008, 102144),
        ],
        Course::Anchorage => seq![(544420, 102620)],
        Course::Fishing => seq![
            (544550, 102250),
            (544700, 102400),
            (544600, 102750),
            (544450, 102500),
        ],
        Course::Sailing => seq![
            (544350, 101900),
            (544450, 102150),
            (544300, 102250),
            (544200, 102050),
        ],
    }
}

/// A course that leads back to its beginning.
pub open spec fn is_round(c: Course) -> bool {
    c == Course::Fishing || c == Course::Sailing
}

/// The points of a course; a round one ends where it begins.
pub open spec fn route_points(c: Course) -> Seq<Waypoint> {
    if is_round(c) {
        marks(c).push(marks(c)[0])
    } else {
        marks(c)
    }
}

fn course_marks(c: Course) -> (r: Vec<Waypoint>)
    ensures
        r@ == marks(c),
{
    let r: Vec<Waypoint> = match c {
        Course::Fairway => vec![
            (543195, 101445),
            (543280, 101560),
            (543452, 101650),
            (543600, 101720),
            (543750, 101800),
            (543870, 101960),
            (543970, 102060),
            (544080, 102070),
            (544300, 102350),
            (544600, 102600),
            (545000, 102750),
        ],
        Course::Canal => vec![
            (543650, 101570),
            (543680, 101680),
            (543750, 101800),
            (543870, 101960),
            (543970, 102060),
            (544080, 102070),
            (544300, 102350),
            (544700, 102900),
        ],
        Course::Ferry => vec![
            (543209, 101434),
            (543302, 101548),
            (543500, 101690),
            (543740, 101830),
            (543860, 101990),
            (544008, 102144),
        ],
        Course::Anchorage => vec![(544420, 102620)],
        Course::Fishing => vec![
            (544550, 102250),
            (544700, 102400),
            (544600, 102750),
            (544450, 102500),
        ],
        Course::Sailing => vec![
            (544350, 101900),
            (544450, 102150),
            (544300, 102250),
            (544200, 102050),
        ],
    };
    assert(r@ =~= marks(c));
    r
}

impl Course {
    /// Whether the course leads back to its beginning.
    pub fn closed(self) -> (r: bool)
        ensures
            r == is_round(self),
    {
        match self {
            Course::Fishing | Course::Sailing => true,
            _ => false,
        }
    }

    /// The points of the course; a round one ends where it begins.
    pub fn points(self) -> (r: Vec<Waypoint>)
        ensures
            r@ == route_points(self),
            r@.len() > 0,
    {
        let mut r: Vec<Waypoint> = course_marks(self);
        if self.closed() {
            let first: Waypoint = r[0];
            r.push(first);
        }
        r
    }
}

/// Lengths up to each point ascend.
pub open spec fn is_ascending(cum: Seq<i64>) -> bool {
    forall|i: int, j: int| 0 <= i <= j < cum.len() ==> cum[i] <= cum[j]
}

/// The leg of a route on which `along` lies: it leads to point `i`.
pub open spec fn is_leg(cum: Seq<i64>, along: i64, i: int) -> bool {
    &&& 1 <= i < cum.len()
    &&& i > 1 ==> cum[i - 1] <= along
    &&& i < cum.len() - 1 ==> along < cum[i]
}

/// The leg of a route on which `along` lies, given the lengths up to each
/// point. What lies in front of the route is on its first leg, what lies
/// behind it on its last.
pub fn leg(cum: &[i64], along: i64) -> (i: usize)
    requires
        cum@.len() >= 2,
        is_ascending(cum@),
    ensures
        is_leg(cum@, along, i as int),
{
    let mut i: usize = 1;
    while i < cum.len() - 1 && cum[i] <= along
        invariant
            1 <= i < cum@.len(),
            i > 1 ==> cum@[i - 1] <= along,
        decreases cum@.len() - i,
    {
        i += 1;
    }
    i
}

/// There is only one such leg.
pub proof fn law_leg_is_unique(cum: Seq<i64>, along: i64, i: int, j: int)
    requires
        is_ascending(cum),
        is_leg(cum, along, i),
        is_leg(cum, along, j),
    ensures
        i == j,
{
    if i < j {
        assert(cum[i] <= cum[j - 1]);
    } else if j < i {
        assert(cum[j] <= cum[i - 1]);
    }
}

/// Where a ship is after it moved on along an open route.
#[derive(Clone, Copy, Debug, PartialEq, Eq, Structural)]
pub enum Turn {
    /// Between the ends: it goes on.
    Ahead,
    /// At the end or past it: what it went too far, it goes back.
    AtEnd,
    /// At the beginning or in front of it: what it went too far, it goes again.
    AtStart,
}

/// Where a ship is after it moved on along an open route.
pub open spec fn turn_at(along: i64, length: i64) -> Turn {
    if along >= length {
        Turn::AtEnd
    } else if along <= order::ZERO {
        Turn::AtStart
    } else {
        Turn::Ahead
    }
}

/// A ship turns round at the ends of its route. `along` and `length` are order
/// keys; the second result is whether the ship sails forward from now on.
pub fn turn(along: i64, length: i64, forward: bool) -> (r: (Turn, bool))
    ensures
        r.0 == turn_at(along, length),
        r.1 == match r.0 {
            Turn::Ahead => forward,
            Turn::AtEnd => false,
            Turn::AtStart => true,
        },
{
    if along >= length {
        (Turn::AtEnd, false)
    } else if along <= order::ZERO {
        (Turn::AtStart, true)
    } else {
        (Turn::Ahead, forward)
    }
}

/// Two thirds of the length lie in front of the antenna, and half of the width
/// to its left.
pub open spec fn dims_of(len: int, beam: int) -> Seq<u16> {
    seq![
        (len * 2 / 3) as u16,
        (len - len * 2 / 3) as u16,
        (beam / 2) as u16,
        (beam - beam / 2) as u16,
    ]
}

/// Draught in tenths of a metre: a twenty-fifth of the length, rounded, from
/// 1.5 m to 8 m.
pub open spec fn draught_of(len: int) -> u64 {
    let d = (4 * len + 5) / 10;
    if d < 15 {
        15
    } else if d > 80 {
        80
    } else {
        d as u64
    }
}

/// Ship data of a simulated ship.
pub fn ship_data(
    mmsi: u32,
    name: &str,
    callsign: &str,
    ship_type: u8,
    len: u16,
    beam: u16,
) -> (r: StaticData)
    requires
        2 * len <= u16::MAX,
    ensures
        r@.mmsi == mmsi,
        r@.imo == 0,
        r@.callsign == callsign@,
        r@.name == name@,
        r@.ship_type == ship_type,
        r@.dims == dims_of(len as int, beam as int),
        r@.draught == draught_of(len as int),
        r@.destination == "KIEL"@,
{
    let front: u16 = len * 2 / 3;
    let left: u16 = beam / 2;
    let d: u64 = (4 * len as u64 + 5) / 10;
    let draught: u64 = if d < 15 {
        15
    } else if d > 80 {
        80
    } else {
        d
    };
    let dims: [u16; 4] = [front, len - front, left, beam - left];
    assert(dims@ =~= dims_of(len as int, beam as int));
    StaticData {
        mmsi,
        imo: 0,
        callsign: text::copied(callsign),
        name: text::copied(name),
        ship_type,
        dims,
        draught,
        destination: text::copied("KIEL"),
    }
}

/// The dimensions add up to length and width of the ship.
pub proof fn law_dimensions_add_up(len: u16, beam: u16)
    requires
        2 * len <= u16::MAX,
    ensures
        dims_of(len as int, beam as int)[0] + dims_of(len as int, beam as int)[1] == len,
        dims_of(len as int, beam as int)[2] + dims_of(len as int, beam as int)[3] == beam,
{
}

/// What a ship measures when it reports its position, in the units of the air
/// interface.
#[derive(Clone, Copy, Debug, PartialEq, Eq)]
pub struct Fix {
    pub sog: u64,
    pub lon: i64,
    pub lat: i64,
    pub cog: u64,
    /// Only under way.
    pub heading: Option<u16>,
    pub second: u8,
}

/// A simulated ship.
pub struct Ship {
    pub data: StaticData,
    /// Tenths of a knot.
    pub speed: u64,
    pub status: u8,
    pub course: Course,
    pub channel: Channel,
}

/// The other channel.
pub open spec fn other(c: Channel) -> Channel {
    match c {
        Channel::A => Channel::B,
        Channel::B => Channel::A,
    }
}

/// The channel of the `n`-th message from now on.
pub open spec fn channel_of(first: Channel, n: int) -> Channel {
    if n % 2 == 0 {
        first
    } else {
        other(first)
    }
}

/// The position report of a ship.
pub open spec fn position_of(mmsi: u32, status: u8, fix: Fix) -> PositionReport {
    PositionReport {
        msg_type: 1,
        mmsi,
        nav_status: status,
        sog: Some(fix.sog),
        accurate: true,
        lon: Some(fix.lon),
        lat: Some(fix.lat),
        cog: Some(fix.cog),
        heading: fix.heading,
        second: fix.second,
    }
}

/// The messages that are due: static data first, then the position.
pub open spec fn due_messages(
    data: message::StaticView,
    status: u8,
    static_due: bool,
    fix: Option<Fix>,
) -> Seq<message::MessageView> {
    let front = if static_due {
        seq![message::MessageView::Static(data)]
    } else {
        Seq::empty()
    };
    match fix {
        Some(f) => front.push(message::MessageView::Position(position_of(data.mmsi, status, f))),
        None => front,
    }
}

/// A copy of ship data.
fn copy_of(d: &StaticData) -> (r: StaticData)
    ensures
        r@ == d@,
{
    StaticData {
        mmsi: d.mmsi,
        imo: d.imo,
        callsign: text::copied(&d.callsign),
        name: text::copied(&d.name),
        ship_type: d.ship_type,
        dims: d.dims,
        draught: d.draught,
        destination: text::copied(&d.destination),
    }
}

impl Ship {
    /// Class A devices change the channel with every message.
    pub fn next_channel(&mut self) -> (c: Channel)
        ensures
            c == old(self).channel,
            final(self).channel == other(old(self).channel),
            final(self).data == old(self).data,
            final(self).status == old(self).status,
            final(self).speed == old(self).speed,
            final(self).course == old(self).course,
    {
        let c: Channel = self.channel;
        self.channel =
        match c {
            Channel::A => Channel::B,
            Channel::B => Channel::A,
        };
        c
    }

    /// The messages that are due, each with its channel. `fix` is there if the
    /// position is due.
    pub fn report(&mut self, static_due: bool, fix: Option<Fix>) -> (r: Vec<(AisMessage, Channel)>)
        ensures
            ({
                let due = due_messages(old(self).data@, old(self).status, static_due, fix);
                &&& r@.len() == due.len()
                &&& forall|i: int|
                    0 <= i < r@.len() ==> (#[trigger] r@[i]).0@ == due[i] && r@[i].1 == channel_of(
                        old(self).channel,
                        i,
                    )
                &&& final(self).channel == channel_of(old(self).channel, due.len() as int)
            }),
            final(self).data == old(self).data,
            final(self).status == old(self).status,
            final(self).speed == old(self).speed,
            final(self).course == old(self).course,
    {
        let mut r: Vec<(AisMessage, Channel)> = Vec::new();
        if static_due {
            let data: StaticData = copy_of(&self.data);
            let c: Channel = self.next_channel();
            r.push((AisMessage::Static(data), c));
        }
        if let Some(f) = fix {
            let p: PositionReport = PositionReport {
                msg_type: 1,
                mmsi: self.data.mmsi,
                nav_status: self.status,
                sog: Some(f.sog),
                accurate: true,
                lon: Some(f.lon),
                lat: Some(f.lat),
                cog: Some(f.cog),
                heading: f.heading,
                second: f.second,
            };
            let c: Channel = self.next_channel();
            r.push((AisMessage::Position(p), c));
        }
        r
    }
}

/// Two messages of a ship in a row are never on the same channel.
pub proof fn law_channels_alternate(first: Channel, n: int)
    ensures
        channel_of(first, n) != channel_of(first, n + 1),
        channel_of(channel_of(first, n), 1) == channel_of(first, n + 1),
{
}

/// What is due at one call of [`Ship::report`].
pub struct Call {
    pub static_due: bool,
    pub fix: Option<Fix>,
}

/// The channel of the next message after several calls.
pub open spec fn channel_after(
    data: message::StaticView,
    status: u8,
    first: Channel,
    calls: Seq<Call>,
) -> Channel
    decreases calls.len(),
{
    if calls.len() == 0 {
        first
    } else {
        channel_of(
            channel_after(data, status, first, calls.drop_last()),
            due_messages(data, status, calls.last().static_due, calls.last().fix).len() as int,
        )
    }
}

/// All messages of a ship over several calls, each with its channel.
pub open spec fn sent(
    data: message::StaticView,
    status: u8,
    first: Channel,
    calls: Seq<Call>,
) -> Seq<(message::MessageView, Channel)>
    decreases calls.len(),
{
    if calls.len() == 0 {
        Seq::empty()
    } else {
        let now = channel_after(data, status, first, calls.drop_last());
        let due = due_messages(data, status, calls.last().static_due, calls.last().fix);
        sent(data, status, first, calls.drop_last()) + Seq::new(
            due.len(),
            |i: int| (due[i], channel_of(now, i)),
        )
    }
}

/// A message of the ship: its own number, and of a position all readings.
pub open spec fn is_of_ship(m: message::MessageView, data: message::StaticView) -> bool {
    &&& m.mmsi() == data.mmsi
    &&& m matches message::MessageView::Position(p) ==> {
        &&& p.msg_type == 1
        &&& p.lat is Some
        &&& p.lon is Some
        &&& p.sog is Some
        &&& p.cog is Some
    }
}

/// Over all calls the messages of a ship alternate between the channels, and
/// every one of them is its own.
pub proof fn law_messages_alternate(
    data: message::StaticView,
    status: u8,
    first: Channel,
    calls: Seq<Call>,
)
    ensures
        ({
            let all = sent(data, status, first, calls);
            &&& channel_after(data, status, first, calls) == channel_of(first, all.len() as int)
            &&& forall|n: int|
                0 <= n < all.len() ==> (#[trigger] all[n]).1 == channel_of(first, n) && is_of_ship(
                    all[n].0,
                    data,
                )
            &&& forall|n: int, m: int|
                0 <= n && m == n + 1 && m < all.len() ==> (#[trigger] all[n]).1 != (
                #[trigger] all[m]).1
        }),
    decreases calls.len(),
{
    if calls.len() > 0 {
        let before = sent(data, status, first, calls.drop_last());
        let all = sent(data, status, first, calls);
        law_messages_alternate(data, status, first, calls.drop_last());
        assert forall|n: int| 0 <= n < all.len() implies (#[trigger] all[n]).1 == channel_of(
            first,
            n,
        ) && is_of_ship(all[n].0, data) by {
            if n < before.len() {
                assert(all[n] == before[n]);
            }
        }
    }
}

/// One call gives static data at most once, and after it a position at most
/// once.
pub proof fn law_call_is_ordered(
    data: message::StaticView,
    status: u8,
    static_due: bool,
    fix: Option<Fix>,
)
    ensures
        ({
            let due = due_messages(data, status, static_due, fix);
            &&& due.len() <= 2
            &&& forall|i: int|
                0 <= i < due.len() ==> ((#[trigger] due[i]) is Static <==> i == 0 && static_due)
        }),
{
}

/// Name, call sign, type, length, width, speed in tenths of a knot, status and
/// course of a ship of the Kiel fleet.
pub struct Plan {
    pub name: Seq<char>,
    pub callsign: Seq<char>,
    pub ship_type: u8,
    pub len: u16,
    pub beam: u16,
    pub speed: u64,
    pub status: u8,
    pub course: Course,
}

/// The six ships of the Kiel fleet.
pub open spec fn kiel_plan(i: int) -> Plan {
    if i == 0 {
        Plan {
            name: "NORDLICHT"@,
            callsign: "DSIM1"@,
            ship_type: 60,
            len: 190,
            beam: 30,
            speed: 120,
            status: 0,
            course: Course::Fairway,
        }
    } else if i == 1 {
        Plan {
            name: "SCHWENTINE"@,
            callsign: "DSIM2"@,
            ship_type: 70,
            len: 110,
            beam: 17,
            speed: 95,
            status: 0,
            course: Course::Canal,
        }
    } else if i == 2 {
        Plan {
            name: "LABOE"@,
            callsign: "DSIM3"@,
            ship_type: 60,
            len: 35,
            beam: 9,
            speed: 80,
            status: 0,
            course: Course::Ferry,
        }
    } else if i == 3 {
        Plan {
            name: "BALTIC AMBER"@,
            callsign: "DSIM4"@,
            ship_type: 80,
            len: 145,
            beam: 22,
            speed: 0,
            status: 1,
            course: Course::Anchorage,
        }
    } else if i == 4 {
        Plan {
            name: "SPROTTE"@,
            callsign: "DSIM5"@,
            ship_type: 30,
            len: 22,
            beam: 7,
            speed: 50,
            status: 7,
            course: Course::Fishing,
        }
    } else {
        Plan {
            name: "MOEWE"@,
            callsign: "DSIM6"@,
            ship_type: 36,
            len: 12,
            beam: 4,
            speed: 55,
            status: 8,
            course: Course::Sailing,
        }
    }
}

/// A ship is as planned.
pub open spec fn follows(s: Ship, p: Plan, mmsi: u32) -> bool {
    &&& s.data@.mmsi == mmsi
    &&& s.data@.imo == 0
    &&& s.data@.name == p.name
    &&& s.data@.callsign == p.callsign
    &&& s.data@.ship_type == p.ship_type
    &&& s.data@.dims == dims_of(p.len as int, p.beam as int)
    &&& s.data@.draught == draught_of(p.len as int)
    &&& s.data@.destination == "KIEL"@
    &&& s.speed == p.speed
    &&& s.status == p.status
    &&& s.course == p.course
}

/// The fleet in the Kiel fjord, each ship with the channel of its first
/// message.
pub fn kiel(first: [Channel; 6]) -> (r: Vec<Ship>)
    ensures
        r@.len() == 6,
        forall|i: int|
            0 <= i < 6 ==> follows(#[trigger] r@[i], kiel_plan(i), (211_990_001 + i) as u32)
                && r@[i].channel == first@[i],
{
    let mut r: Vec<Ship> = Vec::new();
    r.push(
        Ship {
            data: ship_data(211_990_001, "NORDLICHT", "DSIM1", 60, 190, 30),
            speed: 120,
            status: 0,
            course: Course::Fairway,
            channel: first[0],
        },
    );
    r.push(
        Ship {
            data: ship_data(211_990_002, "SCHWENTINE", "DSIM2", 70, 110, 17),
            speed: 95,
            status: 0,
            course: Course::Canal,
            channel: first[1],
        },
    );
    r.push(
        Ship {
            data: ship_data(211_990_003, "LABOE", "DSIM3", 60, 35, 9),
            speed: 80,
            status: 0,
            course: Course::Ferry,
            channel: first[2],
        },
    );
    r.push(
        Ship {
            data: ship_data(211_990_004, "BALTIC AMBER", "DSIM4", 80, 145, 22),
            speed: 0,
            status: 1,
            course: Course::Anchorage,
            channel: first[3],
        },
    );
    r.push(
        Ship {
            data: ship_data(211_990_005, "SPROTTE", "DSIM5", 30, 22, 7),
            speed: 50,
            status: 7,
            course: Course::Fishing,
            channel: first[4],
        },
    );
    r.push(
        Ship {
            data: ship_data(211_990_006, "MOEWE", "DSIM6", 36, 12, 4),
            speed: 55,
            status: 8,
            course: Course::Sailing,
            channel: first[5],
        },
    );
    r
}

/// A fix whose readings fit their fields.
pub open spec fn is_sound_fix(f: Fix) -> bool {
    &&& f.sog < message::SOG_NA
    &&& -0x800_0000 <= f.lon < 0x800_0000
    &&& f.lon != message::LON_NA
    &&& -0x400_0000 <= f.lat < 0x400_0000
    &&& f.lat != message::LAT_NA
    &&& f.cog < message::COG_NA
    &&& f.heading matches Some(h) ==> h < message::HDG_NA
    &&& f.second < 64
}

proof fn lemma_names_are_sent(i: int)
    requires
        0 <= i < 6,
    ensures
        message_laws::representable_text(kiel_plan(i).name, 20),
        message_laws::representable_text(kiel_plan(i).callsign, 7),
        message_laws::representable_text("KIEL"@, 20),
{
    reveal_strlit("NORDLICHT");
    reveal_strlit("SCHWENTINE");
    reveal_strlit("LABOE");
    reveal_strlit("BALTIC AMBER");
    reveal_strlit("SPROTTE");
    reveal_strlit("MOEWE");
    reveal_strlit("DSIM1");
    reveal_strlit("DSIM2");
    reveal_strlit("DSIM3");
    reveal_strlit("DSIM4");
    reveal_strlit("DSIM5");
    reveal_strlit("DSIM6");
    reveal_strlit("KIEL");
}

/// The whole fleet is heard: a receiver that has just started reads every
/// message of a ship as it was sent.
pub proof fn law_fleet_is_heard(s: Ship, i: int, static_due: bool, fix: Option<Fix>, k: int)
    requires
        0 <= i < 6,
        follows(s, kiel_plan(i), (211_990_001 + i) as u32),
        fix matches Some(f) ==> is_sound_fix(f),
        0 <= k < due_messages(s.data@, s.status, static_due, fix).len(),
    ensures
        ({
            let m = due_messages(s.data@, s.status, static_due, fix)[k];
            let levels = super::burst_levels(message::message_bits(m));
            let frames = frame::deframe(frame::hunting(), frame::level_bits(false, levels)).1;
            &&& frames.len() == 1
            &&& message::decoded(frames[0]) == Ok::<message::MessageView, message::DecodeError>(m)
        }),
{
    lemma_names_are_sent(i);
    let m = due_messages(s.data@, s.status, static_due, fix)[k];
    assert(message_laws::representable(m));
    message_laws::law_message_is_received(m);
}

/// A position report shows where and how the ship moves: every reading is the
/// one of the fix, and number and status are those of the ship. Static data go
/// out as they are.
pub proof fn law_messages_show_the_ship(
    data: message::StaticView,
    status: u8,
    static_due: bool,
    fix: Option<Fix>,
)
    ensures
        ({
            let due = due_messages(data, status, static_due, fix);
            &&& due.len() == (if static_due {
                1int
            } else {
                0int
            }) + (if fix is Some {
                1int
            } else {
                0int
            })
            &&& static_due ==> due[0] == message::MessageView::Static(data)
            &&& fix matches Some(f) ==> due.last() matches message::MessageView::Position(p) && {
                &&& p.msg_type == 1
                &&& p.mmsi == data.mmsi
                &&& p.nav_status == status
                &&& p.sog == Some(f.sog)
                &&& p.accurate
                &&& p.lon == Some(f.lon)
                &&& p.lat == Some(f.lat)
                &&& p.cog == Some(f.cog)
                &&& p.heading == f.heading
                &&& p.second == f.second
            }
        }),
{
}

/// The antenna stands two thirds of the length behind the bow, rounded down, and
/// in the middle of the ship.
pub proof fn law_antenna_place(len: u16, beam: u16)
    requires
        2 * len <= u16::MAX,
    ensures
        ({
            let d = dims_of(len as int, beam as int);
            &&& d.len() == 4
            &&& 3 * d[0] <= 2 * len < 3 * d[0] + 3
            &&& d[0] + d[1] == len
            &&& 2 * d[2] <= beam <= 2 * d[2] + 1
            &&& d[2] + d[3] == beam
        }),
{
}

/// The draught is four tenths of a decimetre per metre of length, rounded to
/// the nearest, and stays between 1.5 and 8 metres.
pub proof fn law_draught_follows_length(len: u16)
    ensures
        15 <= draught_of(len as int) <= 80,
        15 < draught_of(len as int) < 80 ==> 10 * draught_of(len as int) - 5 <= 4 * len < 10
            * draught_of(len as int) + 5,
        draught_of(len as int) == 15 ==> 4 * len < 155,
        draught_of(len as int) == 80 ==> 4 * len >= 795,
{
}

/// A ship turns at the ends of its course and nowhere between them.
pub proof fn law_ships_turn_at_the_ends(along: i64, length: i64)
    requires
        length > 0,
    ensures
        along >= length <==> turn_at(along, length) == Turn::AtEnd,
        along <= 0 <==> turn_at(along, length) == Turn::AtStart,
{
}

} // verus!
