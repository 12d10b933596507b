//! Numbers and times as they are written in German.

use crate::text;
use vstd::prelude::*;

verus! {

/// Decimal comma and a true minus sign.
pub open spec fn german_char(c: char) -> char {
    if c == '.' {
        ','
    } else if c == '-' {
        '−'
    } else {
        c
    }
}

/// A number with decimal comma and true minus sign.
pub open spec fn german(s: Seq<char>) -> Seq<char> {
    s.map_values(|c: char| german_char(c))
}

/// A number, written with point and hyphen, with decimal comma and true minus
/// sign.
pub fn num(s: &str) -> (r: String)
    ensures
        r@ == german(s@),
{
    let letters: Vec<char> = text::chars(s);
    let mut out: Vec<char> = Vec::new();
    let mut i: usize = 0;
    while i < letters.len()
        invariant
            i <= letters@.len(),
            out@ =~= german(letters@.take(i as int)),
        decreases letters@.len() - i,
    {
        let c: char = letters[i];
        out.push(
            if c == '.' {
                ','
            } else if c == '-' {
                '−'
            } else {
                c
            },
        );
        i += 1;
    }
    assert(letters@.take(i as int) =~= letters@);
    text::string(&out)
}

/// A number of megahertz.
pub fn mhz(s: &str) -> (r: String)
    ensures
        r@ == german(s@) + " MHz"@,
{
    let mut r: String = num(s);
    text::push_str(&mut r, " MHz");
    r
}

/// A level.
pub fn dbfs(s: &str) -> (r: String)
    ensures
        r@ == german(s@) + " dBFS"@,
{
    let mut r: String = num(s);
    text::push_str(&mut r, " dBFS");
    r
}

/// A speed.
pub fn knots(s: &str) -> (r: String)
    ensures
        r@ == german(s@) + " kn"@,
{
    let mut r: String = num(s);
    text::push_str(&mut r, " kn");
    r
}

/// An angle in degrees and decimal minutes with its direction.
pub open spec fn angle_text(deg: nat, width: nat, minutes: Seq<char>, direction: char) -> Seq<
    char,
> {
    text::zero_padded(deg, width) + "° "@ + german(minutes) + "′ "@ + seq![direction]
}

fn push_angle(out: &mut String, deg: u32, width: usize, minutes: &str, direction: char)
    ensures
        final(out)@ == old(out)@ + angle_text(deg as nat, width as nat, minutes@, direction),
{
    let ghost before = out@;
    text::push_padded(out, deg as u64, width);
    text::push_str(out, "° ");
    text::push_str(out, &num(minutes));
    text::push_str(out, "′ ");
    out.push(direction);
    assert(out@ =~= before + angle_text(deg as nat, width as nat, minutes@, direction));
}

/// Magnitude and direction of an angle.
#[derive(Clone, Debug, PartialEq, Eq)]
pub struct Angle {
    pub degrees: u32,
    /// Minutes as a number with point.
    pub minutes: String,
    pub negative: bool,
}

/// Degrees and decimal minutes as on a chart: `54° 22,334′ N  010° 08,900′ E`.
pub fn lat_lon(lat: &Angle, lon: &Angle) -> (r: String)
    ensures
        r@ == angle_text(
            lat.degrees as nat,
            2,
            lat.minutes@,
            if lat.negative {
                'S'
            } else {
                'N'
            },
        ) + "  "@ + angle_text(
            lon.degrees as nat,
            3,
            lon.minutes@,
            if lon.negative {
                'W'
            } else {
                'E'
            },
        ),
{
    let mut r = String::new();
    let ghost empty = r@;
    push_angle(
        &mut r,
        lat.degrees,
        2,
        &lat.minutes,
        if lat.negative {
            'S'
        } else {
            'N'
        },
    );
    let ghost first = r@;
    text::push_str(&mut r, "  ");
    push_angle(
        &mut r,
        lon.degrees,
        3,
        &lon.minutes,
        if lon.negative {
            'W'
        } else {
            'E'
        },
    );
    assert(empty =~= Seq::<char>::empty());
    assert(first =~= angle_text(
        lat.degrees as nat,
        2,
        lat.minutes@,
        if lat.negative {
            'S'
        } else {
            'N'
        },
    ));
    r
}

/// Hours, minutes and seconds with two digits each.
pub open spec fn clock_text(h: nat, m: nat, s: nat) -> Seq<char> {
    text::zero_padded(h, 2) + seq![':'] + text::zero_padded(m, 2) + seq![':'] + text::zero_padded(
        s,
        2,
    )
}

/// Time of day.
pub fn clock(hours: u32, minutes: u32, seconds: u32) -> (r: String)
    ensures
        r@ == clock_text(hours as nat, minutes as nat, seconds as nat),
{
    let mut r = String::new();
    text::push_padded(&mut r, hours as u64, 2);
    r.push(':');
    text::push_padded(&mut r, minutes as u64, 2);
    r.push(':');
    text::push_padded(&mut r, seconds as u64, 2);
    assert(r@ =~= clock_text(hours as nat, minutes as nat, seconds as nat));
    r
}

/// How long ago something was: seconds below a minute, minutes below an hour,
/// hours from then on, always rounded down.
pub open spec fn age_text(s: nat) -> Seq<char> {
    if s < 60 {
        "vor "@ + text::decimal(s) + " s"@
    } else if s < 3600 {
        "vor "@ + text::decimal(s / 60) + " min"@
    } else {
        "vor "@ + text::decimal(s / 3600) + " h"@
    }
}

/// Whole seconds from one time to another, none if it lies ahead.
pub open spec fn seconds_since(now_ms: int, then_ms: int) -> nat {
    if now_ms <= then_ms {
        0
    } else {
        ((now_ms - then_ms) / 1000) as nat
    }
}

/// How long ago something was, in words. Times are in milliseconds.
pub fn age(now_ms: i64, then_ms: i64) -> (r: String)
    ensures
        r@ == age_text(seconds_since(now_ms as int, then_ms as int)),
{
    let ms: i128 = now_ms as i128 - then_ms as i128;
    let seconds: u64 = if ms <= 0 {
        0
    } else {
        (ms / 1000) as u64
    };
    let mut r = String::new();
    text::push_str(&mut r, "vor ");
    if seconds < 60 {
        text::push_decimal(&mut r, seconds);
        text::push_str(&mut r, " s");
    } else if seconds < 3600 {
        text::push_decimal(&mut r, seconds / 60);
        text::push_str(&mut r, " min");
    } else {
        text::push_decimal(&mut r, seconds / 3600);
        text::push_str(&mut r, " h");
    }
    assert(r@ =~= age_text(seconds as nat));
    r
}

/// A German number has a comma for the point and a minus sign for the hyphen,
/// and all its digits.
pub proof fn law_german_number(s: Seq<char>, i: int)
    requires
        0 <= i < s.len(),
    ensures
        german(s).len() == s.len(),
        s[i] == '.' ==> german(s)[i] == ',',
        s[i] == '-' ==> german(s)[i] == '−',
        s[i] != '.' && s[i] != '-' ==> german(s)[i] == s[i],
{
}

/// An age is given in whole seconds, and never below zero.
pub proof fn law_age_in_seconds(now_ms: int, then_ms: int)
    ensures
        now_ms <= then_ms ==> seconds_since(now_ms, then_ms) == 0,
        now_ms >= then_ms ==> 1000 * seconds_since(now_ms, then_ms) <= now_ms - then_ms < 1000
            * seconds_since(now_ms, then_ms) + 1000,
{
}

} // verus!
