//! What a sentence looks like, character by character.

use super::bits;
use super::layout_laws;
use super::nmea;
use crate::text;
use vstd::arithmetic::power2::*;
use vstd::prelude::*;

verus! {

/// `c` is the printable character of the six-bit group `v`: 48 more, and from
/// 40 on another 8 more.
pub open spec fn is_armor(c: char, v: int) -> bool {
    &&& 0 <= v < 64
    &&& v < 40 ==> c as u32 == v + 48
    &&& v >= 40 ==> c as u32 == v + 56
}

proof fn lemma_armor(v: nat)
    requires
        v < 64,
    ensures
        is_armor(nmea::armor_char(v), v as int),
        nmea::armor_code(nmea::armor_char(v)) == Some(v),
{
}

/// Every six bits become one character, in their order and the first bit
/// counting most; the last group is filled up with up to five zeros, and their
/// number is told.
pub proof fn law_armor_groups_six_bits(payload: Seq<bool>, k: int)
    requires
        0 <= k,
        6 * k < payload.len(),
    ensures
        ({
            let a = nmea::armored(payload);
            let fill = nmea::fill_bits(payload);
            let whole = payload + Seq::new(fill, |i: int| false);
            &&& fill < 6
            &&& 6 * a.len() == payload.len() + fill
            &&& is_armor(a[k], layout_laws::number(whole, 6 * k, 6))
        }),
{
    let pad = bits::padded(payload, 6);
    let fill = nmea::fill_bits(payload);
    let whole = payload + Seq::new(fill, |i: int| false);
    assert(pad =~= whole);
    lemma2_to64();
    layout_laws::lemma_number(pad, 6 * k, 6);
    lemma_armor(bits::value(pad.subrange(6 * k, 6 * k + 6)));
}

/// Reading turns every character into its six bits. It refuses what is no
/// character of a payload and more fill than there are bits.
pub proof fn law_unarmor_gives_six_bits(s: Seq<char>, fill: nat)
    ensures
        match nmea::unarmored(s, fill) {
            Some(b) => {
                &&& b.len() + fill == 6 * s.len()
                &&& forall|k: int|
                    0 <= k && 6 * k + 6 <= b.len() ==> is_armor(
                        #[trigger] s[k],
                        layout_laws::number(b, 6 * k, 6),
                    )
                &&& forall|k: int| 0 <= k < s.len() ==> #[trigger] is_payload(s[k])
            },
            None => fill > 6 * s.len() || exists|k: int|
                0 <= k < s.len() && !#[trigger] is_payload(s[k]),
        },
{
    lemma_group_bits(s);
    if nmea::all_armor(s) {
        assert forall|k: int| 0 <= k < s.len() implies #[trigger] is_payload(s[k]) by {
            assert(nmea::armor_code(s[k]) is Some);
            lemma_payload(s[k]);
        }
        if fill <= 6 * s.len() {
            let all = nmea::group_bits(s);
            let b = all.take(all.len() - fill);
            assert forall|k: int| 0 <= k && 6 * k + 6 <= b.len() implies is_armor(
                #[trigger] s[k],
                layout_laws::number(b, 6 * k, 6),
            ) by {
                assert(nmea::armor_code(s[k]) is Some);
                let v = nmea::armor_code(s[k]).unwrap_or(0);
                lemma_payload(s[k]);
                assert(b.subrange(6 * k, 6 * k + 6) =~= all.subrange(6 * k, 6 * k + 6));
                layout_laws::lemma_number(b, 6 * k, 6);
                lemma2_to64();
                bits::lemma_unsigned_of_field(v, 6);
            }
        }
    } else {
        let k = choose|k: int| 0 <= k < s.len() && !(#[trigger] nmea::armor_code(s[k]) is Some);
        lemma_payload(s[k]);
        assert(!is_payload(s[k]));
    }
}

/// One of the 64 characters of a payload.
pub open spec fn is_payload(c: char) -> bool {
    48 <= c as u32 <= 87 || 96 <= c as u32 <= 119
}

proof fn lemma_payload(c: char)
    ensures
        nmea::armor_code(c) is Some <==> is_payload(c),
        nmea::armor_code(c) matches Some(v) ==> is_armor(c, v as int),
{
}

proof fn lemma_group_bits(s: Seq<char>)
    ensures
        nmea::group_bits(s).len() == 6 * s.len(),
        forall|k: int|
            0 <= k < s.len() ==> nmea::group_bits(s).subrange(6 * k, 6 * k + 6) == bits::field(
                nmea::armor_code(#[trigger] s[k]).unwrap_or(0) as int,
                6,
            ),
    decreases s.len(),
{
    if s.len() > 0 {
        let head = s.drop_last();
        let before = nmea::group_bits(head);
        let last = bits::field(nmea::armor_code(s.last()).unwrap_or(0) as int, 6);
        let all = nmea::group_bits(s);
        lemma_group_bits(head);
        bits::lemma_field_len(nmea::armor_code(s.last()).unwrap_or(0) as int, 6);
        assert forall|k: int| 0 <= k < s.len() implies all.subrange(6 * k, 6 * k + 6)
            == bits::field(nmea::armor_code(#[trigger] s[k]).unwrap_or(0) as int, 6) by {
            if k < head.len() {
                assert(head[k] == s[k]);
                assert(all.subrange(6 * k, 6 * k + 6) =~= before.subrange(6 * k, 6 * k + 6));
            } else {
                assert(all.subrange(6 * k, 6 * k + 6) =~= last);
            }
        }
    }
}

/// A sentence is `!`, a body, `*`, and the checksum of the body in two digits.
/// The body is seven fields with commas between them: `AIVDM`, the number of
/// sentences, the number of this one counted from one, the linking digit if
/// there are several, the channel, up to 60 characters of the payload, and the
/// fill bits, which only the last sentence has.
pub proof fn law_sentence_layout(payload: Seq<bool>, channel: char, seq_id: u8, i: int)
    requires
        0 <= i < nmea::part_count(payload),
    ensures
        ({
            let total = nmea::part_count(payload);
            let a = nmea::armored(payload);
            let end = if 60 * i + 60 < a.len() {
                60 * i + 60
            } else {
                a.len() as int
            };
            let comma = seq![','];
            let link = if total > 1 {
                text::decimal((seq_id % 10) as nat)
            } else {
                Seq::empty()
            };
            let fill = if i == total - 1 {
                text::decimal(nmea::fill_bits(payload))
            } else {
                text::decimal(0)
            };
            let body = seq!['A', 'I', 'V', 'D', 'M'] + comma + (text::decimal(total) + comma + (
            text::decimal((i + 1) as nat) + comma + (link + comma + (seq![channel] + comma + (
            a.subrange(60 * i, end) + comma + fill)))));
            &&& nmea::sentence(payload, channel, seq_id, i) == seq!['!'] + body + seq!['*']
                + text::hex_byte(nmea::body_checksum(body))
        }),
{
    let p = nmea::body_fields(payload, channel, seq_id, i);
    text::lemma_join_seven(p, ',');
}

} // verus!
