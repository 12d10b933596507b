//! What holds of messages on their way through the air interface.

use super::bits;
use super::frame;
use super::frame_laws;
use super::message;
use vstd::arithmetic::power2::*;
use vstd::prelude::*;

verus! {

/// A position report whose readings fit their fields and are no marker for
/// "not available".
pub open spec fn representable_position(p: message::PositionReport) -> bool {
    &&& 1 <= p.msg_type <= 3
    &&& p.mmsi < 0x4000_0000
    &&& p.nav_status < 16
    &&& p.sog matches Some(v) ==> v < message::SOG_NA
    &&& p.lon matches Some(v) ==> -0x800_0000 <= v < 0x800_0000 && v != message::LON_NA
    &&& p.lat matches Some(v) ==> -0x400_0000 <= v < 0x400_0000 && v != message::LAT_NA
    &&& p.cog matches Some(v) ==> v < message::COG_NA
    &&& p.heading matches Some(v) ==> v < message::HDG_NA
    &&& p.second < 64
}

/// A text that fits `n` characters of six-bit ASCII and does not end in fill.
pub open spec fn representable_text(s: Seq<char>, n: nat) -> bool {
    &&& s.len() <= n
    &&& forall|i: int| 0 <= i < s.len() ==> ' ' <= #[trigger] s[i] <= '_'
    &&& s.len() > 0 ==> !bits::is_fill(s.last())
}

/// Static data that fit their fields.
pub open spec fn representable_static(s: message::StaticView) -> bool {
    &&& s.mmsi < 0x4000_0000
    &&& s.imo < 0x4000_0000
    &&& representable_text(s.callsign, 7)
    &&& representable_text(s.name, 20)
    &&& representable_text(s.destination, 20)
    &&& s.dims.len() == 4
    &&& s.dims[0] < 512
    &&& s.dims[1] < 512
    &&& s.dims[2] < 64
    &&& s.dims[3] < 64
    &&& s.draught < 256
}

pub open spec fn representable(m: message::MessageView) -> bool {
    match m {
        message::MessageView::Position(p) => representable_position(p),
        message::MessageView::Static(s) => representable_static(s),
    }
}

pub proof fn lemma_position_lengths(p: message::PositionReport)
    ensures
        message::position_bits(p).len() == 168,
        bits::field(p.msg_type as int, 6).len() == 6,
        bits::field(0, 2).len() == 2,
        bits::field(p.mmsi as int, 30).len() == 30,
        bits::field(p.nav_status as int, 4).len() == 4,
        bits::field(-128, 8).len() == 8,
        bits::field(message::or_na(p.sog, message::SOG_NA), 10).len() == 10,
        bits::field(
            if p.accurate {
                1
            } else {
                0
            },
            1,
        ).len() == 1,
        bits::field(message::angle_or_na(p.lon, message::LON_NA), 28).len() == 28,
        bits::field(message::angle_or_na(p.lat, message::LAT_NA), 27).len() == 27,
        bits::field(message::or_na(p.cog, message::COG_NA), 12).len() == 12,
        bits::field(
            match p.heading {
                Some(h) => h as int,
                None => message::HDG_NA as int,
            },
            9,
        ).len() == 9,
        bits::field(p.second as int, 6).len() == 6,
{
    bits::lemma_field_len(p.msg_type as int, 6);
    bits::lemma_field_len(0, 2);
    bits::lemma_field_len(p.mmsi as int, 30);
    bits::lemma_field_len(p.nav_status as int, 4);
    bits::lemma_field_len(-128, 8);
    bits::lemma_field_len(message::or_na(p.sog, message::SOG_NA), 10);
    bits::lemma_field_len(
        if p.accurate {
            1
        } else {
            0
        },
        1,
    );
    bits::lemma_field_len(message::angle_or_na(p.lon, message::LON_NA), 28);
    bits::lemma_field_len(message::angle_or_na(p.lat, message::LAT_NA), 27);
    bits::lemma_field_len(message::or_na(p.cog, message::COG_NA), 12);
    bits::lemma_field_len(
        match p.heading {
            Some(h) => h as int,
            None => message::HDG_NA as int,
        },
        9,
    );
    bits::lemma_field_len(p.second as int, 6);
    bits::lemma_field_len(0, 3);
    bits::lemma_field_len(0, 1);
    bits::lemma_field_len(0, 19);
}

proof fn lemma_text_field_len(s: Seq<char>, n: nat)
    ensures
        bits::text_field(s, n).len() == 6 * n,
    decreases n,
{
    if n > 0 {
        lemma_text_field_len(s, (n - 1) as nat);
        bits::lemma_field_len(
            if n - 1 < s.len() {
                bits::sixbit_code(s[n - 1]) as int
            } else {
                0
            },
            6,
        );
    }
}

pub proof fn lemma_static_lengths(s: message::StaticView)
    ensures
        message::static_bits(s).len() == 424,
        bits::field(5, 6).len() == 6,
        bits::field(0, 2).len() == 2,
        bits::field(s.mmsi as int, 30).len() == 30,
        bits::field(s.imo as int, 30).len() == 30,
        bits::text_field(s.callsign, 7).len() == 42,
        bits::text_field(s.name, 20).len() == 120,
        bits::field(s.ship_type as int, 8).len() == 8,
        bits::field(s.dims[0] as int, 9).len() == 9,
        bits::field(s.dims[1] as int, 9).len() == 9,
        bits::field(s.dims[2] as int, 6).len() == 6,
        bits::field(s.dims[3] as int, 6).len() == 6,
        bits::field(1, 4).len() == 4,
        bits::field(0, 4).len() == 4,
        bits::field(0, 5).len() == 5,
        bits::field(24, 5).len() == 5,
        bits::field(60, 6).len() == 6,
        bits::field(s.draught as int, 8).len() == 8,
        bits::text_field(s.destination, 20).len() == 120,
{
    bits::lemma_field_len(5, 6);
    bits::lemma_field_len(0, 2);
    bits::lemma_field_len(s.mmsi as int, 30);
    bits::lemma_field_len(s.imo as int, 30);
    lemma_text_field_len(s.callsign, 7);
    lemma_text_field_len(s.name, 20);
    bits::lemma_field_len(s.ship_type as int, 8);
    bits::lemma_field_len(s.dims[0] as int, 9);
    bits::lemma_field_len(s.dims[1] as int, 9);
    bits::lemma_field_len(s.dims[2] as int, 6);
    bits::lemma_field_len(s.dims[3] as int, 6);
    bits::lemma_field_len(1, 4);
    bits::lemma_field_len(0, 4);
    bits::lemma_field_len(0, 5);
    bits::lemma_field_len(24, 5);
    bits::lemma_field_len(60, 6);
    bits::lemma_field_len(s.draught as int, 8);
    lemma_text_field_len(s.destination, 20);
    bits::lemma_field_len(0, 1);
}

/// A position report is 168 bits long, static data are 424 bits long.
pub proof fn law_message_lengths(m: message::MessageView)
    ensures
        message::message_bits(m).len() == match m {
            message::MessageView::Position(_) => 168nat,
            message::MessageView::Static(_) => 424nat,
        },
{
    match m {
        message::MessageView::Position(p) => lemma_position_lengths(p),
        message::MessageView::Static(s) => lemma_static_lengths(s),
    }
}

proof fn lemma_position_round_trip(p: message::PositionReport)
    requires
        representable_position(p),
    ensures
        message::decoded(message::position_bits(p)) == Ok::<
            message::MessageView,
            message::DecodeError,
        >(message::MessageView::Position(p)),
{
    let b = message::position_bits(p);
    lemma_position_lengths(p);
    lemma2_to64();
    let sog = message::or_na(p.sog, message::SOG_NA);
    let lon = message::angle_or_na(p.lon, message::LON_NA);
    let lat = message::angle_or_na(p.lat, message::LAT_NA);
    let cog = message::or_na(p.cog, message::COG_NA);
    let heading = match p.heading {
        Some(h) => h as int,
        None => message::HDG_NA as int,
    };
    let accurate = if p.accurate {
        1int
    } else {
        0int
    };
    assert(b.subrange(0, 6) =~= bits::field(p.msg_type as int, 6));
    assert(b.subrange(8, 38) =~= bits::field(p.mmsi as int, 30));
    assert(b.subrange(38, 42) =~= bits::field(p.nav_status as int, 4));
    assert(b.subrange(50, 60) =~= bits::field(sog, 10));
    assert(b.subrange(60, 61) =~= bits::field(accurate, 1));
    assert(b.subrange(61, 89) =~= bits::field(lon, 28));
    assert(b.subrange(89, 116) =~= bits::field(lat, 27));
    assert(b.subrange(116, 128) =~= bits::field(cog, 12));
    assert(b.subrange(128, 137) =~= bits::field(heading, 9));
    assert(b.subrange(137, 143) =~= bits::field(p.second as int, 6));
    bits::lemma_unsigned_of_field(p.msg_type as nat, 6);
    bits::lemma_unsigned_of_field(p.mmsi as nat, 30);
    bits::lemma_unsigned_of_field(p.nav_status as nat, 4);
    bits::lemma_unsigned_of_field(sog as nat, 10);
    bits::lemma_unsigned_of_field(accurate as nat, 1);
    bits::lemma_signed_of_field(lon, 28);
    bits::lemma_signed_of_field(lat, 27);
    bits::lemma_unsigned_of_field(cog as nat, 12);
    bits::lemma_unsigned_of_field(heading as nat, 9);
    bits::lemma_unsigned_of_field(p.second as nat, 6);
}

/// Character `i` of a text field.
pub proof fn lemma_text_char(s: Seq<char>, n: nat, i: int)
    requires
        0 <= i < n,
    ensures
        bits::text_field(s, n).len() == 6 * n,
        bits::text_field(s, n).subrange(6 * i, 6 * i + 6) == bits::field(
            if i < s.len() {
                bits::sixbit_code(s[i]) as int
            } else {
                0
            },
            6,
        ),
    decreases n,
{
    let code = if i < s.len() {
        bits::sixbit_code(s[i]) as int
    } else {
        0
    };
    lemma_text_field_len(s, n);
    lemma_text_field_len(s, (n - 1) as nat);
    bits::lemma_field_len(code, 6);
    if i < n - 1 {
        lemma_text_char(s, (n - 1) as nat, i);
        assert(bits::text_field(s, n).subrange(6 * i, 6 * i + 6) =~= bits::text_field(
            s,
            (n - 1) as nat,
        ).subrange(6 * i, 6 * i + 6));
    } else {
        assert(bits::text_field(s, n).subrange(6 * i, 6 * i + 6) =~= bits::field(code, 6));
    }
}

/// Fill behind a text that does not end in fill goes away.
proof fn lemma_trim_fill(s: Seq<char>, filled: Seq<char>)
    requires
        s.len() > 0 ==> !bits::is_fill(s.last()),
        s.len() <= filled.len(),
        filled.take(s.len() as int) == s,
        forall|i: int| s.len() <= i < filled.len() ==> #[trigger] filled[i] == '@',
    ensures
        bits::trim_fill(filled) == s,
    decreases filled.len(),
{
    if filled.len() == s.len() {
        assert(filled.take(s.len() as int) =~= filled);
    } else {
        assert(filled.drop_last().take(s.len() as int) =~= s);
        lemma_trim_fill(s, filled.drop_last());
    }
}

/// A text comes back from its field.
proof fn lemma_text_round_trip(s: Seq<char>, n: nat)
    requires
        representable_text(s, n),
    ensures
        bits::trim_fill(bits::text_chars(bits::text_field(s, n), n)) == s,
{
    let filled = bits::text_chars(bits::text_field(s, n), n);
    lemma2_to64();
    assert forall|i: int| 0 <= i < n implies #[trigger] filled[i] == if i < s.len() {
        s[i]
    } else {
        '@'
    } by {
        lemma_text_char(s, n, i);
        let code = if i < s.len() {
            bits::sixbit_code(s[i]) as int
        } else {
            0
        };
        bits::lemma_unsigned_of_field(code as nat, 6);
    }
    assert(filled.take(s.len() as int) =~= s);
    lemma_trim_fill(s, filled);
}

proof fn lemma_static_round_trip(s: message::StaticView)
    requires
        representable_static(s),
    ensures
        message::decoded(message::static_bits(s)) == Ok::<
            message::MessageView,
            message::DecodeError,
        >(message::MessageView::Static(s)),
{
    let b = message::static_bits(s);
    lemma_static_lengths(s);
    lemma2_to64();
    assert(b.subrange(0, 6) =~= bits::field(5, 6));
    assert(b.subrange(8, 38) =~= bits::field(s.mmsi as int, 30));
    assert(b.subrange(40, 70) =~= bits::field(s.imo as int, 30));
    assert(b.subrange(70, 112) =~= bits::text_field(s.callsign, 7));
    assert(b.subrange(112, 232) =~= bits::text_field(s.name, 20));
    assert(b.subrange(232, 240) =~= bits::field(s.ship_type as int, 8));
    assert(b.subrange(240, 249) =~= bits::field(s.dims[0] as int, 9));
    assert(b.subrange(249, 258) =~= bits::field(s.dims[1] as int, 9));
    assert(b.subrange(258, 264) =~= bits::field(s.dims[2] as int, 6));
    assert(b.subrange(264, 270) =~= bits::field(s.dims[3] as int, 6));
    assert(b.subrange(294, 302) =~= bits::field(s.draught as int, 8));
    assert(b.subrange(302, 422) =~= bits::text_field(s.destination, 20));
    bits::lemma_unsigned_of_field(5, 6);
    bits::lemma_unsigned_of_field(s.mmsi as nat, 30);
    bits::lemma_unsigned_of_field(s.imo as nat, 30);
    bits::lemma_unsigned_of_field(s.ship_type as nat, 8);
    bits::lemma_unsigned_of_field(s.dims[0] as nat, 9);
    bits::lemma_unsigned_of_field(s.dims[1] as nat, 9);
    bits::lemma_unsigned_of_field(s.dims[2] as nat, 6);
    bits::lemma_unsigned_of_field(s.dims[3] as nat, 6);
    bits::lemma_unsigned_of_field(s.draught as nat, 8);
    lemma_text_round_trip(s.callsign, 7);
    lemma_text_round_trip(s.name, 20);
    lemma_text_round_trip(s.destination, 20);
    assert(message::static_in(b).dims =~= s.dims);
}

/// Decoding an encoded message gives it back.
pub proof fn law_message_round_trip(m: message::MessageView)
    requires
        representable(m),
    ensures
        message::decoded(message::message_bits(m)) == Ok::<
            message::MessageView,
            message::DecodeError,
        >(m),
{
    match m {
        message::MessageView::Position(p) => lemma_position_round_trip(p),
        message::MessageView::Static(s) => lemma_static_round_trip(s),
    }
}

/// Every payload that decodes carries the MMSI where any message has it.
pub proof fn law_mmsi_is_where_expected(b: Seq<bool>)
    requires
        message::decoded(b) is Ok,
    ensures
        b.len() >= 38,
        message::decoded(b)->Ok_0.mmsi() == message::at(b, 8, 30) as u32,
{
}

/// What decodes can be sent again: its readings fit their fields.
pub proof fn law_decoded_position_is_representable(b: Seq<bool>)
    requires
        message::decoded(b) matches Ok(message::MessageView::Position(_)),
    ensures
        representable_position(message::position_in(b)),
{
    lemma2_to64();
    bits::lemma_value_bound(b.subrange(0, 6));
    bits::lemma_value_bound(b.subrange(8, 38));
    bits::lemma_value_bound(b.subrange(38, 42));
    bits::lemma_value_bound(b.subrange(50, 60));
    bits::lemma_value_bound(b.subrange(61, 89));
    bits::lemma_first_bit(b.subrange(61, 89));
    bits::lemma_value_bound(b.subrange(89, 116));
    bits::lemma_first_bit(b.subrange(89, 116));
    bits::lemma_value_bound(b.subrange(128, 137));
    bits::lemma_value_bound(b.subrange(137, 143));
}

proof fn lemma_message_fits(m: message::MessageView)
    ensures
        frame_laws::fits_frame(message::message_bits(m)),
        bits::padded(message::message_bits(m), 8) == message::message_bits(m),
{
    law_message_lengths(m);
    let b = message::message_bits(m);
    assert(bits::padded(b, 8).len() == b.len());
    assert(bits::padded(b, 8) =~= b);
}

/// What a ship sends is what the station reads: the levels of its burst give
/// one frame, and the frame decodes to the message.
pub proof fn law_message_is_received(m: message::MessageView)
    requires
        representable(m),
    ensures
        ({
            let levels = super::burst_levels(message::message_bits(m));
            let frames = frame::deframe(frame::hunting(), frame::level_bits(false, levels)).1;
            &&& frames == seq![message::message_bits(m)]
            &&& message::decoded(frames[0]) == Ok::<message::MessageView, message::DecodeError>(m)
        }),
{
    lemma_message_fits(m);
    frame_laws::law_burst_is_received(message::message_bits(m));
    law_message_round_trip(m);
}

/// And it is so whatever was on the channel before: the last frame that the
/// levels of the burst complete decodes to the message.
pub proof fn law_message_survives_noise(
    s: frame::DeframerState,
    before: bool,
    m: message::MessageView,
)
    requires
        representable(m),
    ensures
        ({
            let levels = super::burst_levels(message::message_bits(m));
            let frames = frame::deframe(s, frame::level_bits(before, levels)).1;
            &&& frames.len() > 0
            &&& message::decoded(frames.last()) == Ok::<
                message::MessageView,
                message::DecodeError,
            >(m)
        }),
{
    lemma_message_fits(m);
    frame_laws::law_burst_survives_noise(s, before, message::message_bits(m));
    law_message_round_trip(m);
}

} // verus!
