//! AIS messages of ITU-R M.1371: class A position reports (types 1 to 3) and
//! static and voyage data (type 5). Other types are recognised, not evaluated.

use super::bits;
use super::bits::{BitReader, BitWriter};
use super::layout_laws;
use vstd::arithmetic::power2::*;
use vstd::prelude::*;

verus! {

/// A decoded message.
#[derive(Clone, Debug, PartialEq, Eq)]
pub enum AisMessage {
    Position(PositionReport),
    Static(StaticData),
}

/// Position, course and speed, in the units of the air interface.
#[derive(Clone, Copy, Debug, PartialEq, Eq)]
pub struct PositionReport {
    /// 1 and 2 with scheduled transmission, 3 in reply to an interrogation.
    pub msg_type: u8,
    pub mmsi: u32,
    pub nav_status: u8,
    /// Tenths of a knot.
    pub sog: Option<u64>,
    pub accurate: bool,
    /// Ten-thousandths of a minute of arc.
    pub lon: Option<i64>,
    pub lat: Option<i64>,
    /// Tenths of a degree.
    pub cog: Option<u64>,
    pub heading: Option<u16>,
    /// Second of the UTC time stamp (60 is not available).
    pub second: u8,
}

/// Ship and voyage data.
#[derive(Clone, Debug, PartialEq, Eq)]
pub struct StaticData {
    pub mmsi: u32,
    pub imo: u32,
    pub callsign: String,
    pub name: String,
    pub ship_type: u8,
    /// Distance of the antenna to bow, stern, port and starboard in metres.
    pub dims: [u16; 4],
    /// Tenths of a metre.
    pub draught: u64,
    pub destination: String,
}

/// [`StaticData`] with its texts as sequences of characters.
pub struct StaticView {
    pub mmsi: u32,
    pub imo: u32,
    pub callsign: Seq<char>,
    pub name: Seq<char>,
    pub ship_type: u8,
    pub dims: Seq<u16>,
    pub draught: u64,
    pub destination: Seq<char>,
}

/// [`AisMessage`] with its texts as sequences of characters.
pub enum MessageView {
    Position(PositionReport),
    Static(StaticView),
}

/// Why a payload gives no message.
#[derive(Clone, Copy, Debug, PartialEq, Eq)]
pub enum DecodeError {
    TooShort,
    Unsupported(u8),
}

// Values that stand for "not available".
pub const LON_NA: i64 = 108_600_000;

pub const LAT_NA: i64 = 54_600_000;

pub const SOG_NA: u64 = 1023;

pub const COG_NA: u64 = 3600;

pub const HDG_NA: u64 = 511;

impl View for StaticData {
    type V = StaticView;

    open spec fn view(&self) -> StaticView {
        StaticView {
            mmsi: self.mmsi,
            imo: self.imo,
            callsign: self.callsign@,
            name: self.name@,
            ship_type: self.ship_type,
            dims: self.dims@,
            draught: self.draught,
            destination: self.destination@,
        }
    }
}

impl View for AisMessage {
    type V = MessageView;

    open spec fn view(&self) -> MessageView {
        match *self {
            AisMessage::Position(p) => MessageView::Position(p),
            AisMessage::Static(s) => MessageView::Static(s@),
        }
    }
}

impl MessageView {
    pub open spec fn mmsi(self) -> u32 {
        match self {
            MessageView::Position(p) => p.mmsi,
            MessageView::Static(s) => s.mmsi,
        }
    }
}

/// The number to send for a reading, or `na` where there is none.
pub open spec fn or_na(v: Option<u64>, na: u64) -> int {
    match v {
        Some(x) => x as int,
        None => na as int,
    }
}

pub open spec fn angle_or_na(v: Option<i64>, na: i64) -> int {
    match v {
        Some(x) => x as int,
        None => na as int,
    }
}

/// The 168 bits of a position report. Turn rate, manoeuvre indicator and radio
/// status are sent as not available.
pub open spec fn position_bits(p: PositionReport) -> Seq<bool> {
    bits::field(p.msg_type as int, 6) + bits::field(0, 2) + bits::field(p.mmsi as int, 30)
        + bits::field(p.nav_status as int, 4) + bits::field(-128, 8) + bits::field(
        or_na(p.sog, SOG_NA),
        10,
    ) + bits::field(
        if p.accurate {
            1
        } else {
            0
        },
        1,
    ) + bits::field(angle_or_na(p.lon, LON_NA), 28) + bits::field(angle_or_na(p.lat, LAT_NA), 27)
        + bits::field(or_na(p.cog, COG_NA), 12) + bits::field(
        match p.heading {
            Some(h) => h as int,
            None => HDG_NA as int,
        },
        9,
    ) + bits::field(p.second as int, 6) + bits::field(0, 2) + bits::field(0, 3) + bits::field(0, 1)
        + bits::field(0, 19)
}

/// The 424 bits of static data: position source GPS, no arrival time.
pub open spec fn static_bits(s: StaticView) -> Seq<bool> {
    bits::field(5, 6) + bits::field(0, 2) + bits::field(s.mmsi as int, 30) + bits::field(0, 2)
        + bits::field(s.imo as int, 30) + bits::text_field(s.callsign, 7) + bits::text_field(
        s.name,
        20,
    ) + bits::field(s.ship_type as int, 8) + bits::field(s.dims[0] as int, 9) + bits::field(
        s.dims[1] as int,
        9,
    ) + bits::field(s.dims[2] as int, 6) + bits::field(s.dims[3] as int, 6) + bits::field(1, 4)
        + bits::field(0, 4) + bits::field(0, 5) + bits::field(24, 5) + bits::field(60, 6)
        + bits::field(s.draught as int, 8) + bits::text_field(s.destination, 20) + bits::field(0, 1)
        + bits::field(0, 1)
}

/// The payload of a message.
pub open spec fn message_bits(m: MessageView) -> Seq<bool> {
    match m {
        MessageView::Position(p) => position_bits(p),
        MessageView::Static(s) => static_bits(s),
    }
}

/// `n` bits from bit `from` on, as a number.
pub open spec fn at(b: Seq<bool>, from: int, n: int) -> nat {
    bits::value(b.subrange(from, from + n))
}

/// `n` bits from bit `from` on, in two's complement.
pub open spec fn signed_at(b: Seq<bool>, from: int, n: int) -> int {
    bits::signed_value(b.subrange(from, from + n))
}

/// `n` characters from bit `from` on, without fill.
pub open spec fn text_at(b: Seq<bool>, from: int, n: nat) -> Seq<char> {
    bits::trim_fill(bits::text_chars(b.subrange(from, from + 6 * n), n))
}

/// The position report in a payload of at least 143 bits.
pub open spec fn position_in(b: Seq<bool>) -> PositionReport {
    let sog = at(b, 50, 10);
    let lon = signed_at(b, 61, 28);
    let lat = signed_at(b, 89, 27);
    let cog = at(b, 116, 12);
    let heading = at(b, 128, 9);
    PositionReport {
        msg_type: at(b, 0, 6) as u8,
        mmsi: at(b, 8, 30) as u32,
        nav_status: at(b, 38, 4) as u8,
        sog: if sog != SOG_NA {
            Some(sog as u64)
        } else {
            None
        },
        accurate: at(b, 60, 1) == 1,
        lon: if lon != LON_NA {
            Some(lon as i64)
        } else {
            None
        },
        lat: if lat != LAT_NA {
            Some(lat as i64)
        } else {
            None
        },
        cog: if cog < COG_NA {
            Some(cog as u64)
        } else {
            None
        },
        heading: if heading != HDG_NA {
            Some(heading as u16)
        } else {
            None
        },
        second: at(b, 137, 6) as u8,
    }
}

/// The static data in a payload of at least 422 bits.
pub open spec fn static_in(b: Seq<bool>) -> StaticView {
    StaticView {
        mmsi: at(b, 8, 30) as u32,
        imo: at(b, 40, 30) as u32,
        callsign: text_at(b, 70, 7),
        name: text_at(b, 112, 20),
        ship_type: at(b, 232, 8) as u8,
        dims: seq![
            at(b, 240, 9) as u16,
            at(b, 249, 9) as u16,
            at(b, 258, 6) as u16,
            at(b, 264, 6) as u16,
        ],
        draught: at(b, 294, 8) as u64,
        destination: text_at(b, 302, 20),
    }
}

/// What a payload says.
pub open spec fn decoded(b: Seq<bool>) -> Result<MessageView, DecodeError> {
    let t = at(b, 0, 6);
    if b.len() < 6 {
        Err(DecodeError::TooShort)
    } else if 1 <= t <= 3 {
        if b.len() < 143 {
            Err(DecodeError::TooShort)
        } else {
            Ok(MessageView::Position(position_in(b)))
        }
    } else if t == 5 {
        if b.len() < 422 {
            Err(DecodeError::TooShort)
        } else {
            Ok(MessageView::Static(static_in(b)))
        }
    } else {
        Err(DecodeError::Unsupported(t as u8))
    }
}

impl StaticData {
    /// Length of the ship in metres.
    pub fn length(&self) -> (r: u16)
        requires
            self@.dims[0] + self@.dims[1] <= u16::MAX,
        ensures
            r == self@.dims[0] + self@.dims[1],
    {
        self.dims[0] + self.dims[1]
    }

    /// Width of the ship in metres.
    pub fn beam(&self) -> (r: u16)
        requires
            self@.dims[2] + self@.dims[3] <= u16::MAX,
        ensures
            r == self@.dims[2] + self@.dims[3],
    {
        self.dims[2] + self.dims[3]
    }
}

impl AisMessage {
    pub fn mmsi(&self) -> (r: u32)
        ensures
            r == self@.mmsi(),
    {
        match self {
            AisMessage::Position(p) => p.mmsi,
            AisMessage::Static(s) => s.mmsi,
        }
    }

    pub fn msg_type(&self) -> (r: u8)
        ensures
            r == match self@ {
                MessageView::Position(p) => p.msg_type,
                MessageView::Static(_) => 5,
            },
    {
        match self {
            AisMessage::Position(p) => p.msg_type,
            AisMessage::Static(_) => 5,
        }
    }

    /// The payload of the message.
    pub fn encode(&self) -> (r: Vec<bool>)
        ensures
            r@ == message_bits(self@),
    {
        let mut w = BitWriter::default();
        match self {
            AisMessage::Position(p) => {
                w.uint(p.msg_type as u64, 6);
                w.uint(0, 2);  // repeat counter
                w.uint(p.mmsi as u64, 30);
                w.uint(p.nav_status as u64, 4);
                w.signed(-128, 8);  // turn rate not available
                w.uint(p.sog.unwrap_or(SOG_NA), 10);
                w.uint(
                    if p.accurate {
                        1
                    } else {
                        0
                    },
                    1,
                );
                w.signed(p.lon.unwrap_or(LON_NA), 28);
                w.signed(p.lat.unwrap_or(LAT_NA), 27);
                w.uint(p.cog.unwrap_or(COG_NA), 12);
                w.uint(
                    match p.heading {
                        Some(h) => h as u64,
                        None => HDG_NA,
                    },
                    9,
                );
                w.uint(p.second as u64, 6);
                w.uint(0, 2);  // manoeuvre indicator
                w.uint(0, 3);  // spare
                w.uint(0, 1);  // RAIM
                w.uint(0, 19);  // radio status
                assert(w@ =~= position_bits(*p));
            },
            AisMessage::Static(s) => {
                w.uint(5, 6);
                w.uint(0, 2);
                w.uint(s.mmsi as u64, 30);
                w.uint(0, 2);  // AIS version
                w.uint(s.imo as u64, 30);
                w.text(s.callsign.as_str(), 7);
                w.text(s.name.as_str(), 20);
                w.uint(s.ship_type as u64, 8);
                w.uint(s.dims[0] as u64, 9);
                w.uint(s.dims[1] as u64, 9);
                w.uint(s.dims[2] as u64, 6);
                w.uint(s.dims[3] as u64, 6);
                w.uint(1, 4);  // position source GPS
                w.uint(0, 4);  // no arrival time: month 0, day 0, 24:60
                w.uint(0, 5);
                w.uint(24, 5);
                w.uint(60, 6);
                w.uint(s.draught, 8);
                w.text(s.destination.as_str(), 20);
                w.uint(0, 1);  // data terminal ready
                w.uint(0, 1);
                assert(w@ =~= static_bits(s@));
            },
        }
        w.into_bits()
    }

    /// Reads a payload.
    pub fn decode(payload: &[bool]) -> (r: Result<AisMessage, DecodeError>)
        ensures
            match r {
                Ok(m) => decoded(payload@) == Ok::<MessageView, DecodeError>(m@),
                Err(e) => decoded(payload@) == Err::<MessageView, DecodeError>(e),
            },
            match r {
                Ok(AisMessage::Position(p)) => layout_laws::is_position(payload@, p),
                Ok(AisMessage::Static(s)) => layout_laws::is_static(payload@, s),
                Err(_) => true,
            },
    {
        let mut r = BitReader::new(payload);
        assert(payload@.skip(0) =~= payload@);
        let t: u64 = match r.uint(6) {
            Some(v) => v,
            None => {
                return Err(DecodeError::TooShort);
            },
        };
        proof {
            lemma_seek(payload@, 0, 6);
        }
        let msg_type: u8 = t as u8;
        if 1 <= msg_type && msg_type <= 3 {
            match decode_position(msg_type, &mut r, Ghost(payload@)) {
                Some(p) => {
                    proof {
                        layout_laws::lemma_number(payload@, 0, 6);
                        layout_laws::law_position_layout(payload@);
                    }
                    Ok(AisMessage::Position(p))
                },
                None => Err(DecodeError::TooShort),
            }
        } else if msg_type == 5 {
            match decode_static(&mut r, Ghost(payload@)) {
                Some(s) => {
                    proof {
                        layout_laws::lemma_number(payload@, 0, 6);
                        layout_laws::law_static_layout(payload@);
                    }
                    Ok(AisMessage::Static(s))
                },
                None => Err(DecodeError::TooShort),
            }
        } else {
            Err(DecodeError::Unsupported(msg_type))
        }
    }
}

/// Reading `n` bits from bit `from` on.
proof fn lemma_seek(b: Seq<bool>, from: int, n: int)
    requires
        0 <= from,
        0 <= n,
        from + n <= b.len(),
    ensures
        b.skip(from).take(n) == b.subrange(from, from + n),
        b.skip(from).skip(n) == b.skip(from + n),
        n <= 30 ==> at(b, from, n) < 0x4000_0000,
        n <= 12 ==> at(b, from, n) < 4096,
        n <= 9 ==> at(b, from, n) < 512,
        n <= 8 ==> at(b, from, n) < 256,
        n <= 6 ==> at(b, from, n) < 64,
{
    let part = b.subrange(from, from + n);
    assert(b.skip(from).take(n) =~= part);
    assert(b.skip(from).skip(n) =~= b.skip(from + n));
    bits::lemma_value_bound(part);
    lemma2_to64();
    if n < 30 {
        lemma_pow2_strictly_increases(n as nat, 30);
    }
    if n < 12 {
        lemma_pow2_strictly_increases(n as nat, 12);
    }
    if n < 9 {
        lemma_pow2_strictly_increases(n as nat, 9);
    }
    if n < 8 {
        lemma_pow2_strictly_increases(n as nat, 8);
    }
    if n < 6 {
        lemma_pow2_strictly_increases(n as nat, 6);
    }
}

/// Reading `n` characters from bit `from` on.
proof fn lemma_seek_text(b: Seq<bool>, from: int, n: nat)
    requires
        0 <= from,
        from + 6 * n <= b.len(),
    ensures
        bits::trim_fill(bits::text_chars(b.skip(from), n)) == text_at(b, from, n),
        b.skip(from).skip(6 * n as int) == b.skip(from + 6 * n),
{
    let part = b.subrange(from, from + 6 * n);
    assert forall|i: int| 0 <= i < n implies b.skip(from).subrange(6 * i, 6 * i + 6)
        == #[trigger] part.subrange(6 * i, 6 * i + 6) by {
        assert(b.skip(from).subrange(6 * i, 6 * i + 6) =~= part.subrange(6 * i, 6 * i + 6));
    }
    assert(bits::text_chars(b.skip(from), n) =~= bits::text_chars(part, n));
    assert(b.skip(from).skip(6 * n as int) =~= b.skip(from + 6 * n));
}

/// The rest of a position report behind its type.
fn decode_position(msg_type: u8, r: &mut BitReader, Ghost(b): Ghost<Seq<bool>>) -> (p: Option<
    PositionReport,
>)
    requires
        old(r).wf(),
        b.len() >= 6,
        old(r)@ == b.skip(6),
        msg_type == at(b, 0, 6),
    ensures
        p is Some <==> b.len() >= 143,
        p matches Some(report) ==> report == position_in(b),
{
    r.uint(2)?;
    proof { lemma_seek(b, 6, 2); }
    let mmsi: u64 = r.uint(30)?;
    proof { lemma_seek(b, 8, 30); }
    let nav_status: u64 = r.uint(4)?;
    proof { lemma_seek(b, 38, 4); }
    r.signed(8)?;
    proof { lemma_seek(b, 42, 8); }
    let sog: u64 = r.uint(10)?;
    proof { lemma_seek(b, 50, 10); }
    let accurate: u64 = r.uint(1)?;
    proof { lemma_seek(b, 60, 1); }
    let lon: i64 = r.signed(28)?;
    proof { lemma_seek(b, 61, 28); }
    let lat: i64 = r.signed(27)?;
    proof { lemma_seek(b, 89, 27); }
    let cog: u64 = r.uint(12)?;
    proof { lemma_seek(b, 116, 12); }
    let heading: u64 = r.uint(9)?;
    proof { lemma_seek(b, 128, 9); }
    let second: u64 = r.uint(6)?;
    proof { lemma_seek(b, 137, 6); }
    Some(
        PositionReport {
            msg_type,
            mmsi: mmsi as u32,
            nav_status: nav_status as u8,
            sog: if sog != SOG_NA {
                Some(sog)
            } else {
                None
            },
            accurate: accurate == 1,
            lon: if lon != LON_NA {
                Some(lon)
            } else {
                None
            },
            lat: if lat != LAT_NA {
                Some(lat)
            } else {
                None
            },
            cog: if cog < COG_NA {
                Some(cog)
            } else {
                None
            },
            heading: if heading != HDG_NA {
                Some(heading as u16)
            } else {
                None
            },
            second: second as u8,
        },
    )
}

/// The rest of static data behind their type.
fn decode_static(r: &mut BitReader, Ghost(b): Ghost<Seq<bool>>) -> (s: Option<StaticData>)
    requires
        old(r).wf(),
        b.len() >= 6,
        old(r)@ == b.skip(6),
    ensures
        s is Some <==> b.len() >= 422,
        s matches Some(data) ==> data@ == static_in(b),
{
    r.uint(2)?;
    proof { lemma_seek(b, 6, 2); }
    let mmsi: u64 = r.uint(30)?;
    proof { lemma_seek(b, 8, 30); }
    r.uint(2)?;
    proof { lemma_seek(b, 38, 2); }
    let imo: u64 = r.uint(30)?;
    proof { lemma_seek(b, 40, 30); }
    let callsign: String = r.text(7)?;
    proof { lemma_seek_text(b, 70, 7); }
    let name: String = r.text(20)?;
    proof { lemma_seek_text(b, 112, 20); }
    let ship_type: u64 = r.uint(8)?;
    proof { lemma_seek(b, 232, 8); }
    let bow: u64 = r.uint(9)?;
    proof { lemma_seek(b, 240, 9); }
    let stern: u64 = r.uint(9)?;
    proof { lemma_seek(b, 249, 9); }
    let port: u64 = r.uint(6)?;
    proof { lemma_seek(b, 258, 6); }
    let starboard: u64 = r.uint(6)?;
    proof { lemma_seek(b, 264, 6); }
    r.uint(24)?;  // position source and arrival time
    proof { lemma_seek(b, 270, 24); }
    let draught: u64 = r.uint(8)?;
    proof { lemma_seek(b, 294, 8); }
    let destination: String = r.text(20)?;
    proof { lemma_seek_text(b, 302, 20); }
    let dims: [u16; 4] = [bow as u16, stern as u16, port as u16, starboard as u16];
    assert(dims@ =~= static_in(b).dims);
    Some(
        StaticData {
            mmsi: mmsi as u32,
            imo: imo as u32,
            callsign,
            name,
            ship_type: ship_type as u8,
            dims,
            draught,
            destination,
        },
    )
}

/// MMSI of any type of message; it always stands in bits 8 to 37.
pub fn peek_mmsi(payload: &[bool]) -> (r: Option<u32>)
    ensures
        r == if payload@.len() < 38 {
            None::<u32>
        } else {
            Some(at(payload@, 8, 30) as u32)
        },
        r matches Some(mmsi) ==> mmsi == layout_laws::number(payload@, 8, 30),
{
    let mut r = BitReader::new(payload);
    assert(payload@.skip(0) =~= payload@);
    r.uint(8)?;
    proof { lemma_seek(payload@, 0, 8); }
    let mmsi: u64 = r.uint(30)?;
    proof {
        lemma_seek(payload@, 8, 30);
        layout_laws::law_mmsi_layout(payload@);
    }
    Some(mmsi as u32)
}

} // verus!
