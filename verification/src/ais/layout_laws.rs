//! Where every field of a message stands, by bit position, as ITU-R M.1371
//! lays them out.

use super::bits;
use super::message;
use super::message_laws;
use vstd::arithmetic::div_mod::*;
use vstd::arithmetic::power2::*;
use vstd::prelude::*;

verus! {

/// The number in `n` bits from bit `from` on; the first of them counts most.
pub open spec fn number(b: Seq<bool>, from: int, n: nat) -> int
    decreases n,
{
    if n == 0 {
        0
    } else {
        2 * number(b, from, (n - 1) as nat) + if b[from + n - 1] {
            1int
        } else {
            0int
        }
    }
}

/// The number in `n` bits from bit `from` on, in two's complement.
pub open spec fn signed_number(b: Seq<bool>, from: int, n: nat) -> int {
    if b[from] {
        number(b, from, n) - pow2(n)
    } else {
        number(b, from, n)
    }
}

/// `s` is the text in `n` characters of six bits from bit `from` on. The code
/// of a character is its ASCII code modulo 64. Behind the text there is only
/// fill, `@` or space, and the text does not end in fill.
pub open spec fn is_text(b: Seq<bool>, from: int, n: int, s: Seq<char>) -> bool {
    &&& s.len() <= n
    &&& forall|i: int|
        0 <= i < s.len() ==> {
            &&& 32 <= (#[trigger] s[i]) as u32 <= 95
            &&& s[i] as u32 % 64 == number(b, from + 6 * i, 6)
        }
    &&& forall|i: int|
        s.len() <= i < n ==> {
            ||| #[trigger] number(b, from + 6 * i, 6) == 0
            ||| number(b, from + 6 * i, 6) == 32
        }
    &&& s.len() > 0 ==> s.last() != '@' && s.last() != ' '
}

/// `p` is the position report in `b`.
pub open spec fn is_position(b: Seq<bool>, p: message::PositionReport) -> bool {
    &&& p.msg_type == number(b, 0, 6)
    &&& p.mmsi == number(b, 8, 30)
    &&& p.nav_status == number(b, 38, 4)
    &&& match p.sog {
        Some(v) => v == number(b, 50, 10) && v != 1023,
        None => number(b, 50, 10) == 1023,
    }
    &&& p.accurate == b[60]
    &&& match p.lon {
        Some(v) => v == signed_number(b, 61, 28) && v != 181 * 600_000,
        None => signed_number(b, 61, 28) == 181 * 600_000,
    }
    &&& match p.lat {
        Some(v) => v == signed_number(b, 89, 27) && v != 91 * 600_000,
        None => signed_number(b, 89, 27) == 91 * 600_000,
    }
    &&& match p.cog {
        Some(v) => v == number(b, 116, 12) && v < 3600,
        None => number(b, 116, 12) >= 3600,
    }
    &&& match p.heading {
        Some(v) => v == number(b, 128, 9) && v != 511,
        None => number(b, 128, 9) == 511,
    }
    &&& p.second == number(b, 137, 6)
}

/// `s` is the static and voyage data in `b`.
pub open spec fn is_static(b: Seq<bool>, s: message::StaticData) -> bool {
    &&& number(b, 0, 6) == 5
    &&& s.mmsi == number(b, 8, 30)
    &&& s.imo == number(b, 40, 30)
    &&& is_text(b, 70, 7, s.callsign@)
    &&& is_text(b, 112, 20, s.name@)
    &&& s.ship_type == number(b, 232, 8)
    &&& s.dims@[0] == number(b, 240, 9)
    &&& s.dims@[1] == number(b, 249, 9)
    &&& s.dims@[2] == number(b, 258, 6)
    &&& s.dims@[3] == number(b, 264, 6)
    &&& s.draught == number(b, 294, 8)
    &&& is_text(b, 302, 20, s.destination@)
}

pub proof fn lemma_number(b: Seq<bool>, from: int, n: nat)
    requires
        0 <= from,
        from + n <= b.len(),
    ensures
        bits::value(b.subrange(from, from + n)) == number(b, from, n),
        0 <= number(b, from, n) < pow2(n),
    decreases n,
{
    if n > 0 {
        lemma_number(b, from, (n - 1) as nat);
        assert(b.subrange(from, from + n).drop_last() =~= b.subrange(from, from + n - 1));
    }
    bits::lemma_value_bound(b.subrange(from, from + n));
}

proof fn lemma_trimmed(s: Seq<char>)
    ensures
        ({
            let r = bits::trim_fill(s);
            &&& r.len() <= s.len()
            &&& forall|i: int| 0 <= i < r.len() ==> #[trigger] r[i] == s[i]
            &&& forall|i: int| r.len() <= i < s.len() ==> #[trigger] s[i] == '@' || s[i] == ' '
            &&& r.len() > 0 ==> r.last() != '@' && r.last() != ' '
        }),
    decreases s.len(),
{
    if s.len() > 0 && bits::is_fill(s.last()) {
        let t = s.drop_last();
        lemma_trimmed(t);
        let r = bits::trim_fill(s);
        assert forall|i: int| r.len() <= i < s.len() implies #[trigger] s[i] == '@' || s[i]
            == ' ' by {
            if i < t.len() {
                assert(t[i] == s[i]);
            }
        }
    }
}

/// The text that is read is the one that stands there.
proof fn lemma_text(b: Seq<bool>, from: int, n: nat)
    requires
        0 <= from,
        from + 6 * n <= b.len(),
    ensures
        is_text(b, from, n as int, message::text_at(b, from, n)),
{
    let part = b.subrange(from, from + 6 * n);
    let all = bits::text_chars(part, n);
    let r = message::text_at(b, from, n);
    lemma2_to64();
    lemma_trimmed(all);
    assert forall|i: int| 0 <= i < n implies {
        &&& 32 <= (#[trigger] all[i]) as u32 <= 95
        &&& all[i] as u32 % 64 == number(b, from + 6 * i, 6)
    } by {
        lemma_number(b, from + 6 * i, 6);
        assert(part.subrange(6 * i, 6 * i + 6) =~= b.subrange(from + 6 * i, from + 6 * i + 6));
    }
    assert forall|i: int| r.len() <= i < n implies {
        ||| #[trigger] number(b, from + 6 * i, 6) == 0
        ||| number(b, from + 6 * i, 6) == 32
    } by {
        assert(all[i] == '@' || all[i] == ' ');
    }
}

/// A payload of type 1, 2 or 3 with at least 143 bits is a position report, and
/// every reading stands in it at its place: speed in bits 50 to 59, longitude in
/// bits 61 to 88, latitude in bits 89 to 115, and so on.
pub proof fn law_position_layout(b: Seq<bool>)
    requires
        b.len() >= 143,
        1 <= number(b, 0, 6) <= 3,
    ensures
        message::decoded(b) matches Ok(message::MessageView::Position(p)) && is_position(b, p),
{
    lemma2_to64();
    lemma_number(b, 0, 6);
    lemma_number(b, 8, 30);
    lemma_number(b, 38, 4);
    lemma_number(b, 50, 10);
    lemma_number(b, 60, 1);
    lemma_number(b, 61, 28);
    lemma_number(b, 89, 27);
    lemma_number(b, 116, 12);
    lemma_number(b, 128, 9);
    lemma_number(b, 137, 6);
    assert(number(b, 60, 1) == if b[60] {
        1int
    } else {
        0int
    }) by {
        reveal_with_fuel(number, 2);
    }
    bits::lemma_first_bit(b.subrange(61, 89));
    bits::lemma_first_bit(b.subrange(89, 116));
}

/// A payload of type 5 with at least 422 bits is static data, and every entry
/// stands in it at its place: the name in bits 112 to 231, the destination in
/// bits 302 to 421, and so on.
pub proof fn law_static_layout(b: Seq<bool>)
    requires
        b.len() >= 422,
        number(b, 0, 6) == 5,
    ensures
        message::decoded(b) matches Ok(message::MessageView::Static(s)) && {
            &&& s.mmsi == number(b, 8, 30)
            &&& s.imo == number(b, 40, 30)
            &&& is_text(b, 70, 7, s.callsign)
            &&& is_text(b, 112, 20, s.name)
            &&& s.ship_type == number(b, 232, 8)
            &&& s.dims.len() == 4
            &&& s.dims[0] == number(b, 240, 9)
            &&& s.dims[1] == number(b, 249, 9)
            &&& s.dims[2] == number(b, 258, 6)
            &&& s.dims[3] == number(b, 264, 6)
            &&& s.draught == number(b, 294, 8)
            &&& is_text(b, 302, 20, s.destination)
        },
{
    lemma2_to64();
    lemma_number(b, 0, 6);
    lemma_number(b, 8, 30);
    lemma_number(b, 40, 30);
    lemma_text(b, 70, 7);
    lemma_text(b, 112, 20);
    lemma_number(b, 232, 8);
    lemma_number(b, 240, 9);
    lemma_number(b, 249, 9);
    lemma_number(b, 258, 6);
    lemma_number(b, 264, 6);
    lemma_number(b, 294, 8);
    lemma_text(b, 302, 20);
}

/// Every other payload is refused: one that ends before its type or before its
/// last field is too short, and of the other types only the number is told.
pub proof fn law_other_payloads_are_refused(b: Seq<bool>)
    requires
        !(b.len() >= 143 && 1 <= number(b, 0, 6) <= 3),
        !(b.len() >= 422 && number(b, 0, 6) == 5),
    ensures
        message::decoded(b) matches Err(e) && match e {
            message::DecodeError::TooShort => b.len() < 6 || 1 <= number(b, 0, 6) <= 3 || number(
                b,
                0,
                6,
            ) == 5,
            message::DecodeError::Unsupported(t) => {
                &&& b.len() >= 6
                &&& t == number(b, 0, 6)
                &&& t == 0 || t == 4 || t >= 6
            },
        },
{
    lemma2_to64();
    if b.len() >= 6 {
        lemma_number(b, 0, 6);
    }
}

/// Among the characters of six-bit ASCII only fill has the code of fill.
proof fn lemma_fill(c: char)
    requires
        32 <= c as u32 <= 95,
        c as u32 % 64 == 0 || c as u32 % 64 == 32,
    ensures
        c == '@' || c == ' ',
{
}

proof fn lemma_same_code(a: char, b: char)
    requires
        32 <= a as u32 <= 95,
        32 <= b as u32 <= 95,
        a as u32 % 64 == b as u32 % 64,
    ensures
        a == b,
{
}

/// Two texts that stand at the same place are the same.
pub proof fn law_text_is_unique(b: Seq<bool>, from: int, n: int, s: Seq<char>, t: Seq<char>)
    requires
        is_text(b, from, n, s),
        is_text(b, from, n, t),
    ensures
        s == t,
{
    if s.len() < t.len() {
        let i = t.len() - 1;
        assert(t[i] == t.last());
        assert(number(b, from + 6 * i, 6) == 0 || number(b, from + 6 * i, 6) == 32);
        lemma_fill(t[i]);
    } else if t.len() < s.len() {
        let i = s.len() - 1;
        assert(s[i] == s.last());
        assert(number(b, from + 6 * i, 6) == 0 || number(b, from + 6 * i, 6) == 32);
        lemma_fill(s[i]);
    }
    assert forall|i: int| 0 <= i < s.len() && i < t.len() implies s[i] == t[i] by {
        lemma_same_code(s[i], t[i]);
    }
    assert(s =~= t);
}

/// The six-bit code of a character: its ASCII code modulo 64. A small letter
/// has the code of the capital one, and what has no code has that of `?`.
pub open spec fn code(c: char) -> int {
    if 32 <= c as u32 <= 95 {
        c as u32 as int % 64
    } else if 97 <= c as u32 <= 122 {
        (c as u32 - 32) % 64
    } else {
        '?' as u32 as int % 64
    }
}

/// Characters are written by their codes.
pub proof fn law_character_code(c: char)
    ensures
        bits::sixbit_code(c) == code(c),
        code(c) < 64,
        32 <= c as u32 <= 95 ==> bits::sixbit_char(code(c) as nat) == c,
{
}

/// The text `s` is written in `n` characters of six bits from bit `from` on, cut
/// at the end or filled up with `@`, whose code is 0.
pub open spec fn is_written(b: Seq<bool>, from: int, n: int, s: Seq<char>) -> bool {
    forall|i: int|
        0 <= i < n ==> #[trigger] number(b, from + 6 * i, 6) == (if i < s.len() {
            code(s[i])
        } else {
            0
        })
}

/// A field that was written as a whole holds its number.
proof fn lemma_written(b: Seq<bool>, from: int, n: nat, v: int)
    requires
        0 <= from,
        from + n <= b.len(),
        b.subrange(from, from + n) == bits::field(v, n),
    ensures
        number(b, from, n) == v % (pow2(n) as int),
{
    lemma_number(b, from, n);
    bits::lemma_value_of_field(v, n);
}

proof fn lemma_text_written(b: Seq<bool>, from: int, n: nat, s: Seq<char>)
    requires
        0 <= from,
        from + 6 * n <= b.len(),
        b.subrange(from, from + 6 * n) == bits::text_field(s, n),
    ensures
        is_written(b, from, n as int, s),
{
    lemma2_to64();
    assert forall|i: int| 0 <= i < n implies #[trigger] number(b, from + 6 * i, 6) == (if i
        < s.len() {
        code(s[i])
    } else {
        0
    }) by {
        message_laws::lemma_text_char(s, n, i);
        assert(b.subrange(from + 6 * i, from + 6 * i + 6) =~= b.subrange(
            from,
            from + 6 * n,
        ).subrange(6 * i, 6 * i + 6));
        let v = if i < s.len() {
            bits::sixbit_code(s[i]) as int
        } else {
            0
        };
        if i < s.len() {
            law_character_code(s[i]);
        }
        lemma_written(b, from + 6 * i, 6, v);
        lemma_small_mod(v as nat, 64);
    }
}

/// A position report puts every reading into its field, and the marker for "not
/// available" where there is none. The turn rate is sent as not available, and
/// repeat counter, manoeuvre indicator, spare bits, RAIM and radio status as
/// zero.
pub proof fn law_position_is_written(p: message::PositionReport)
    ensures
        ({
            let b = message::message_bits(message::MessageView::Position(p));
            &&& b.len() == 168
            &&& number(b, 0, 6) == p.msg_type % 64
            &&& number(b, 6, 2) == 0
            &&& number(b, 8, 30) == p.mmsi % 0x4000_0000
            &&& number(b, 38, 4) == p.nav_status % 16
            &&& number(b, 42, 8) == 128
            &&& number(b, 50, 10) == match p.sog {
                Some(v) => v as int % 1024,
                None => 1023,
            }
            &&& b[60] == p.accurate
            &&& number(b, 61, 28) == match p.lon {
                Some(v) => v as int % 0x1000_0000,
                None => 181int * 600_000,
            }
            &&& number(b, 89, 27) == match p.lat {
                Some(v) => v as int % 0x800_0000,
                None => 91int * 600_000,
            }
            &&& number(b, 116, 12) == match p.cog {
                Some(v) => v as int % 4096,
                None => 3600,
            }
            &&& number(b, 128, 9) == match p.heading {
                Some(v) => v as int % 512,
                None => 511,
            }
            &&& number(b, 137, 6) == p.second % 64
            &&& number(b, 143, 2) == 0
            &&& number(b, 145, 3) == 0
            &&& number(b, 148, 1) == 0
            &&& number(b, 149, 19) == 0
        }),
{
    let b = message::position_bits(p);
    message_laws::lemma_position_lengths(p);
    bits::lemma_field_len(0, 3);
    bits::lemma_field_len(0, 1);
    bits::lemma_field_len(0, 19);
    lemma2_to64();
    let sog = message::or_na(p.sog, message::SOG_NA);
    let lon = message::angle_or_na(p.lon, message::LON_NA);
    let lat = message::angle_or_na(p.lat, message::LAT_NA);
    let cog = message::or_na(p.cog, message::COG_NA);
    let heading = match p.heading {
        Some(h) => h as int,
        None => message::HDG_NA as int,
    };
    let accurate = if p.accurate {
        1int
    } else {
        0int
    };
    assert(b.subrange(0, 6) =~= bits::field(p.msg_type as int, 6));
    assert(b.subrange(6, 8) =~= bits::field(0, 2));
    assert(b.subrange(8, 38) =~= bits::field(p.mmsi as int, 30));
    assert(b.subrange(38, 42) =~= bits::field(p.nav_status as int, 4));
    assert(b.subrange(42, 50) =~= bits::field(-128, 8));
    assert(b.subrange(50, 60) =~= bits::field(sog, 10));
    assert(b.subrange(60, 61) =~= bits::field(accurate, 1));
    assert(b.subrange(61, 89) =~= bits::field(lon, 28));
    assert(b.subrange(89, 116) =~= bits::field(lat, 27));
    assert(b.subrange(116, 128) =~= bits::field(cog, 12));
    assert(b.subrange(128, 137) =~= bits::field(heading, 9));
    assert(b.subrange(137, 143) =~= bits::field(p.second as int, 6));
    assert(b.subrange(143, 145) =~= bits::field(0, 2));
    assert(b.subrange(145, 148) =~= bits::field(0, 3));
    assert(b.subrange(148, 149) =~= bits::field(0, 1));
    assert(b.subrange(149, 168) =~= bits::field(0, 19));
    lemma_written(b, 0, 6, p.msg_type as int);
    lemma_written(b, 6, 2, 0);
    lemma_written(b, 8, 30, p.mmsi as int);
    lemma_written(b, 38, 4, p.nav_status as int);
    lemma_written(b, 42, 8, -128);
    lemma_written(b, 50, 10, sog);
    lemma_written(b, 60, 1, accurate);
    lemma_written(b, 61, 28, lon);
    lemma_written(b, 89, 27, lat);
    lemma_written(b, 116, 12, cog);
    lemma_written(b, 128, 9, heading);
    lemma_written(b, 137, 6, p.second as int);
    lemma_written(b, 143, 2, 0);
    lemma_written(b, 145, 3, 0);
    lemma_written(b, 148, 1, 0);
    lemma_written(b, 149, 19, 0);
    assert(number(b, 60, 1) == if b[60] {
        1int
    } else {
        0int
    }) by {
        reveal_with_fuel(number, 2);
    }
}

/// Static data put every entry into its field. The position source is GPS, and
/// the arrival time is not available: month 0, day 0, 24:60.
pub proof fn law_static_is_written(s: message::StaticView)
    ensures
        ({
            let b = message::message_bits(message::MessageView::Static(s));
            &&& b.len() == 424
            &&& number(b, 0, 6) == 5
            &&& number(b, 6, 2) == 0
            &&& number(b, 8, 30) == s.mmsi % 0x4000_0000
            &&& number(b, 38, 2) == 0
            &&& number(b, 40, 30) == s.imo % 0x4000_0000
            &&& is_written(b, 70, 7, s.callsign)
            &&& is_written(b, 112, 20, s.name)
            &&& number(b, 232, 8) == s.ship_type
            &&& number(b, 240, 9) == s.dims[0] % 512
            &&& number(b, 249, 9) == s.dims[1] % 512
            &&& number(b, 258, 6) == s.dims[2] % 64
            &&& number(b, 264, 6) == s.dims[3] % 64
            &&& number(b, 270, 4) == 1
            &&& number(b, 274, 4) == 0
            &&& number(b, 278, 5) == 0
            &&& number(b, 283, 5) == 24
            &&& number(b, 288, 6) == 60
            &&& number(b, 294, 8) == s.draught % 256
            &&& is_written(b, 302, 20, s.destination)
            &&& number(b, 422, 1) == 0
            &&& number(b, 423, 1) == 0
        }),
{
    let b = message::static_bits(s);
    message_laws::lemma_static_lengths(s);
    bits::lemma_field_len(0, 1);
    lemma2_to64();
    assert(b.subrange(0, 6) =~= bits::field(5, 6));
    assert(b.subrange(6, 8) =~= bits::field(0, 2));
    assert(b.subrange(8, 38) =~= bits::field(s.mmsi as int, 30));
    assert(b.subrange(38, 40) =~= bits::field(0, 2));
    assert(b.subrange(40, 70) =~= bits::field(s.imo as int, 30));
    assert(b.subrange(70, 112) =~= bits::text_field(s.callsign, 7));
    assert(b.subrange(112, 232) =~= bits::text_field(s.name, 20));
    assert(b.subrange(232, 240) =~= bits::field(s.ship_type as int, 8));
    assert(b.subrange(240, 249) =~= bits::field(s.dims[0] as int, 9));
    assert(b.subrange(249, 258) =~= bits::field(s.dims[1] as int, 9));
    assert(b.subrange(258, 264) =~= bits::field(s.dims[2] as int, 6));
    assert(b.subrange(264, 270) =~= bits::field(s.dims[3] as int, 6));
    assert(b.subrange(270, 274) =~= bits::field(1, 4));
    assert(b.subrange(274, 278) =~= bits::field(0, 4));
    assert(b.subrange(278, 283) =~= bits::field(0, 5));
    assert(b.subrange(283, 288) =~= bits::field(24, 5));
    assert(b.subrange(288, 294) =~= bits::field(60, 6));
    assert(b.subrange(294, 302) =~= bits::field(s.draught as int, 8));
    assert(b.subrange(302, 422) =~= bits::text_field(s.destination, 20));
    assert(b.subrange(422, 423) =~= bits::field(0, 1));
    assert(b.subrange(423, 424) =~= bits::field(0, 1));
    lemma_written(b, 0, 6, 5);
    lemma_written(b, 6, 2, 0);
    lemma_written(b, 8, 30, s.mmsi as int);
    lemma_written(b, 38, 2, 0);
    lemma_written(b, 40, 30, s.imo as int);
    lemma_text_written(b, 70, 7, s.callsign);
    lemma_text_written(b, 112, 20, s.name);
    lemma_written(b, 232, 8, s.ship_type as int);
    lemma_written(b, 240, 9, s.dims[0] as int);
    lemma_written(b, 249, 9, s.dims[1] as int);
    lemma_written(b, 258, 6, s.dims[2] as int);
    lemma_written(b, 264, 6, s.dims[3] as int);
    lemma_written(b, 270, 4, 1);
    lemma_written(b, 274, 4, 0);
    lemma_written(b, 278, 5, 0);
    lemma_written(b, 283, 5, 24);
    lemma_written(b, 288, 6, 60);
    lemma_written(b, 294, 8, s.draught as int);
    lemma_text_written(b, 302, 20, s.destination);
    lemma_written(b, 422, 1, 0);
    lemma_written(b, 423, 1, 0);
}

/// Bit `i` of a field of `n` bits counts `2^(n - 1 - i)`: the first one most.
pub proof fn law_field_is_msb_first(v: int, n: nat, i: int)
    requires
        0 <= i < n,
    ensures
        bits::field(v, n).len() == n,
        bits::field(v, n)[i] <==> (v / (pow2((n - 1 - i) as nat) as int)) % 2 == 1,
    decreases n,
{
    bits::lemma_field_len(v, n);
    lemma2_to64();
    if i < n - 1 {
        let k = (n - 1 - i) as nat;
        bits::lemma_field_len(v / 2, (n - 1) as nat);
        law_field_is_msb_first(v / 2, (n - 1) as nat, i);
        lemma_pow2_unfold(k);
        lemma_pow2_pos((k - 1) as nat);
        let m = pow2((k - 1) as nat) as int;
        let half = v / 2;
        let q = half / m;
        let r = half % m;
        lemma_fundamental_div_mod(half, m);
        assert(v == q * (2 * m) + (2 * r + v % 2)) by (nonlinear_arith)
            requires
                half == m * q + r,
                half == v / 2,
        ;
        lemma_fundamental_div_mod_converse(v, 2 * m, q, 2 * r + v % 2);
        assert(bits::field(v, n)[i] == bits::field(v / 2, (n - 1) as nat)[i]);
    } else {
        assert(v / (pow2(0) as int) == v);
    }
}

/// What is read is the sum of what the bits count, the first one most; in two's
/// complement the first one counts negatively.
pub proof fn law_value_is_msb_first(b: Seq<bool>)
    ensures
        bits::value(b) == number(b, 0, b.len()),
        b.len() > 0 ==> bits::signed_value(b) == number(b, 0, b.len()) - (if b[0] {
            pow2(b.len())
        } else {
            0
        }),
{
    assert(b.subrange(0, b.len() as int) =~= b);
    lemma_number(b, 0, b.len());
}

/// What the contracts say of a message they say of its own fields.
pub proof fn law_message_view(m: message::AisMessage)
    ensures
        match m {
            message::AisMessage::Position(p) => m@ == message::MessageView::Position(p) && m@.mmsi()
                == p.mmsi,
            message::AisMessage::Static(s) => m@ matches message::MessageView::Static(v) && {
                &&& v == s@
                &&& m@.mmsi() == s.mmsi
                &&& v.mmsi == s.mmsi
                &&& v.imo == s.imo
                &&& v.callsign == s.callsign@
                &&& v.name == s.name@
                &&& v.ship_type == s.ship_type
                &&& v.dims == s.dims@
                &&& v.draught == s.draught
                &&& v.destination == s.destination@
            },
        },
{
}

/// The MMSI of any message of at least 38 bits stands in bits 8 to 37.
pub proof fn law_mmsi_layout(b: Seq<bool>)
    requires
        b.len() >= 38,
    ensures
        message::at(b, 8, 30) == number(b, 8, 30),
        message::decoded(b) matches Ok(m) ==> m.mmsi() == number(b, 8, 30),
{
    lemma2_to64();
    lemma_number(b, 8, 30);
}

} // verus!
