//! What holds of NMEA sentences for every payload.

use super::bits;
use super::nmea;
use crate::text;
use vstd::arithmetic::power2::*;
use vstd::prelude::*;
use vstd::utf8::*;

verus! {

proof fn lemma_armor_code_of_char(v: nat)
    requires
        v < 64,
    ensures
        nmea::armor_code(nmea::armor_char(v)) == Some(v),
        nmea::armor_char(v) != ',',
        nmea::armor_char(v) != '*',
{
}

proof fn lemma_groups_of_prefix(payload: Seq<bool>, k: nat)
    requires
        k <= nmea::armored(payload).len(),
    ensures
        nmea::group_bits(nmea::armored(payload).take(k as int)) == bits::padded(payload, 6).take(
            6 * k as int,
        ),
    decreases k,
{
    let a = nmea::armored(payload);
    let pad = bits::padded(payload, 6);
    if k == 0 {
        assert(a.take(0) =~= Seq::<char>::empty());
        assert(pad.take(0) =~= Seq::<bool>::empty());
    } else {
        let j = (k - 1) as nat;
        let group = pad.subrange(6 * j as int, 6 * j as int + 6);
        lemma_groups_of_prefix(payload, j);
        bits::lemma_value_bound(group);
        lemma2_to64();
        lemma_armor_code_of_char(bits::value(group));
        bits::lemma_field_of_value(group);
        assert(a.take(k as int).drop_last() =~= a.take(j as int));
        assert(pad.take(6 * k as int) =~= pad.take(6 * j as int) + group);
    }
}

proof fn lemma_armored_chars(payload: Seq<bool>)
    ensures
        nmea::all_armor(nmea::armored(payload)),
        !nmea::armored(payload).contains(','),
        !nmea::armored(payload).contains('*'),
{
    let a = nmea::armored(payload);
    let pad = bits::padded(payload, 6);
    assert forall|i: int| 0 <= i < a.len() implies {
        &&& #[trigger] nmea::armor_code(a[i]) is Some
        &&& a[i] != ','
        &&& a[i] != '*'
    } by {
        let group = pad.subrange(6 * i, 6 * i + 6);
        bits::lemma_value_bound(group);
        lemma2_to64();
        lemma_armor_code_of_char(bits::value(group));
    }
    if a.contains(',') {
        let i = choose|i: int| 0 <= i < a.len() && a[i] == ',';
        assert(nmea::armor_code(a[i]) is Some);
    }
    if a.contains('*') {
        let i = choose|i: int| 0 <= i < a.len() && a[i] == '*';
        assert(nmea::armor_code(a[i]) is Some);
    }
}

/// Taking the armour off gives the payload back.
pub proof fn law_armor_round_trip(payload: Seq<bool>)
    ensures
        nmea::unarmored(nmea::armored(payload), nmea::fill_bits(payload)) == Some(payload),
{
    let a = nmea::armored(payload);
    let pad = bits::padded(payload, 6);
    lemma_armored_chars(payload);
    lemma_groups_of_prefix(payload, a.len());
    assert(a.take(a.len() as int) =~= a);
    assert(pad.take(6 * a.len() as int) =~= pad);
    assert(pad.take(payload.len() as int) =~= payload);
}

/// One sentence for every 360 bits that a payload begins, and one for an empty
/// payload.
pub proof fn law_sentence_count(payload: Seq<bool>)
    ensures
        nmea::part_count(payload) == (if payload.len() == 0 {
            1
        } else {
            (payload.len() + 359) / 360
        }),
        nmea::part_count(payload) >= 1,
{
}

/// Payload characters of the first `n` sentences.
pub open spec fn parts_before(payload: Seq<bool>, n: nat) -> Seq<char>
    decreases n,
{
    if n == 0 {
        Seq::empty()
    } else {
        parts_before(payload, (n - 1) as nat) + nmea::part(payload, n - 1)
    }
}

proof fn lemma_parts_before(payload: Seq<bool>, n: nat)
    requires
        n <= nmea::part_count(payload),
    ensures
        parts_before(payload, n) == nmea::armored(payload).take(
            if nmea::MAX_CHARS * n < nmea::armored(payload).len() {
                nmea::MAX_CHARS * n as int
            } else {
                nmea::armored(payload).len() as int
            },
        ),
    decreases n,
{
    let a = nmea::armored(payload);
    if n == 0 {
        assert(parts_before(payload, n) =~= a.take(0));
    } else {
        lemma_parts_before(payload, (n - 1) as nat);
        assert(parts_before(payload, n) =~= a.take(
            if nmea::MAX_CHARS * n < a.len() {
                nmea::MAX_CHARS * n as int
            } else {
                a.len() as int
            },
        ));
    }
}

/// The characters of all sentences, one after the other, with the fill bits
/// of the last one carry the whole payload.
pub proof fn law_parts_carry_payload(payload: Seq<bool>)
    ensures
        nmea::unarmored(
            parts_before(payload, nmea::part_count(payload)),
            nmea::fill_bits(payload),
        ) == Some(payload),
{
    let a = nmea::armored(payload);
    lemma_parts_before(payload, nmea::part_count(payload));
    assert(a.take(a.len() as int) =~= a);
    law_armor_round_trip(payload);
}

proof fn lemma_decimal_len(n: nat)
    ensures
        n < 10 ==> text::decimal(n).len() == 1,
        10 <= n < 100 ==> text::decimal(n).len() == 2,
        n >= 100 ==> text::decimal(n).len() >= 3,
    decreases n,
{
    if n >= 10 {
        lemma_decimal_len(n / 10);
    }
}

proof fn lemma_decimal_is_plain(n: nat)
    ensures
        !text::decimal(n).contains(','),
        !text::decimal(n).contains('*'),
    decreases n,
{
    let d = text::decimal(n);
    if n >= 10 {
        let front = text::decimal(n / 10);
        lemma_decimal_is_plain(n / 10);
        assert forall|i: int| 0 <= i < d.len() implies d[i] != ',' && d[i] != '*' by {
            if i < front.len() {
                assert(front.contains(front[i]));
            }
        }
    } else {
        assert forall|i: int| 0 <= i < d.len() implies d[i] != ',' && d[i] != '*' by {}
    }
}

/// A sentence is no longer than the 82 characters that NMEA allows, and shorter
/// where the message has less than ten of them.
pub proof fn law_sentence_length(payload: Seq<bool>, channel: char, seq_id: u8, i: int)
    requires
        0 <= i < nmea::part_count(payload) <= 99,
    ensures
        nmea::sentence(payload, channel, seq_id, i).len() <= 82,
        nmea::part_count(payload) < 10 ==> nmea::sentence(payload, channel, seq_id, i).len() < 82,
{
    let f = nmea::body_fields(payload, channel, seq_id, i);
    text::lemma_join_seven(f, ',');
    lemma_decimal_len(nmea::part_count(payload));
    lemma_decimal_len((i + 1) as nat);
    lemma_decimal_len((seq_id % 10) as nat);
    lemma_decimal_len(nmea::fill_bits(payload));
    lemma_decimal_len(0);
}

proof fn lemma_fields_are_plain(payload: Seq<bool>, channel: char, seq_id: u8, i: int)
    requires
        0 <= i < nmea::part_count(payload),
        channel != ',',
        channel != '*',
    ensures
        forall|k: int|
            #![trigger nmea::body_fields(payload, channel, seq_id, i)[k]]
            0 <= k < 7 ==> {
                &&& !nmea::body_fields(payload, channel, seq_id, i)[k].contains(',')
                &&& !nmea::body_fields(payload, channel, seq_id, i)[k].contains('*')
            },
{
    let f = nmea::body_fields(payload, channel, seq_id, i);
    lemma_decimal_is_plain(nmea::part_count(payload));
    lemma_decimal_is_plain((i + 1) as nat);
    lemma_decimal_is_plain((seq_id % 10) as nat);
    lemma_decimal_is_plain(nmea::fill_bits(payload));
    lemma_decimal_is_plain(0);
    lemma_armored_chars(payload);
    let a = nmea::armored(payload);
    let p = nmea::part(payload, i);
    assert forall|c: char| p.contains(c) implies a.contains(c) by {
        let j = choose|j: int| 0 <= j < p.len() && p[j] == c;
        assert(a[nmea::MAX_CHARS * i + j] == c);
    }
}

proof fn lemma_joined_is_plain(f: Seq<Seq<char>>)
    requires
        f.len() == 7,
        forall|k: int| 0 <= k < 7 ==> !(#[trigger] f[k]).contains('*'),
    ensures
        !text::join(f, ',').contains('*'),
{
    let body = text::join(f, ',');
    text::lemma_join_seven(f, ',');
    if body.contains('*') {
        let i = choose|i: int| 0 <= i < body.len() && body[i] == '*';
        let n0 = f[0].len() + 1;
        let n1 = n0 + f[1].len() + 1;
        let n2 = n1 + f[2].len() + 1;
        let n3 = n2 + f[3].len() + 1;
        let n4 = n3 + f[4].len() + 1;
        let n5 = n4 + f[5].len() + 1;
        if i < n0 - 1 {
            assert(f[0][i] == '*');
        } else if n0 <= i < n1 - 1 {
            assert(f[1][i - n0] == '*');
        } else if n1 <= i < n2 - 1 {
            assert(f[2][i - n1] == '*');
        } else if n2 <= i < n3 - 1 {
            assert(f[3][i - n2] == '*');
        } else if n3 <= i < n4 - 1 {
            assert(f[4][i - n3] == '*');
        } else if n4 <= i < n5 - 1 {
            assert(f[5][i - n4] == '*');
        } else if n5 <= i {
            assert(f[6][i - n5] == '*');
        }
    }
}

proof fn lemma_hex_is_read(b: u8)
    ensures
        text::byte_number(text::trim_end(text::trim_start(text::hex_byte(b))), 16) == Some(b),
{
    let h = text::hex_byte(b);
    let high = b as int / 16;
    let low = b as int % 16;
    assert(text::digit_value(h[0], 16) == Some(high as nat));
    assert(text::digit_value(h[1], 16) == Some(low as nat));
    assert(!text::is_space(h[0]) && !text::is_space(h.last()));
    assert(text::trim_start(h) == h);
    assert(text::trim_end(h) == h);
    reveal_with_fuel(text::number, 3);
    assert(h.drop_last().last() == h[0]);
    assert(text::number(h, 16) == 16 * high + low);
}

proof fn lemma_digit_is_read(d: nat)
    requires
        d < 10,
    ensures
        text::byte_number(text::decimal(d), 10) == Some(d as u8),
{
    let s = text::decimal(d);
    assert(text::digit_value(s[0], 10) == Some(d));
    reveal_with_fuel(text::number, 2);
    assert(text::number(s, 10) == d);
}

/// What a reader of a sentence sees before it looks at the fields: the body,
/// with a valid checksum, in seven fields.
proof fn lemma_sentence_opens(payload: Seq<bool>, channel: char, seq_id: u8, i: int)
    requires
        0 <= i < nmea::part_count(payload),
        channel != ',',
        channel != '*',
    ensures
        ({
            let line = nmea::sentence(payload, channel, seq_id, i);
            let rest = line.skip(1);
            let f = nmea::body_fields(payload, channel, seq_id, i);
            let body = text::join(f, ',');
            &&& line.len() > 0 && line[0] == '!'
            &&& text::find(rest, '*') == body.len() < rest.len()
            &&& rest.take(body.len() as int) == body
            &&& rest.skip(body.len() as int + 1) == text::hex_byte(nmea::body_checksum(body))
            &&& text::split(body, ',') == f
        }),
{
    let line = nmea::sentence(payload, channel, seq_id, i);
    let rest = line.skip(1);
    let f = nmea::body_fields(payload, channel, seq_id, i);
    let body = text::join(f, ',');
    let tail = text::hex_byte(nmea::body_checksum(body));
    lemma_fields_are_plain(payload, channel, seq_id, i);
    lemma_joined_is_plain(f);
    assert(rest =~= body + seq!['*'] + tail);
    text::lemma_find_after(body, tail, '*');
    text::lemma_split_join(f, ',');
    assert(rest.take(body.len() as int) =~= body);
    assert(rest.skip(body.len() as int + 1) =~= tail);
}

/// A payload that fits into one sentence is read back from it, whatever the
/// channel is called, as long as its name is no separator.
pub proof fn law_single_sentence_round_trip(payload: Seq<bool>, channel: char, seq_id: u8)
    requires
        payload.len() <= 360,
        channel != ',',
        channel != '*',
    ensures
        nmea::part_count(payload) == 1,
        nmea::parsed(nmea::sentence(payload, channel, seq_id, 0)) == Some(payload),
{
    let f = nmea::body_fields(payload, channel, seq_id, 0);
    let body = text::join(f, ',');
    let a = nmea::armored(payload);
    law_sentence_count(payload);
    lemma_sentence_opens(payload, channel, seq_id, 0);
    lemma_hex_is_read(nmea::body_checksum(body));
    lemma_digit_is_read(nmea::fill_bits(payload));
    assert(text::decimal(1) =~= seq!['1']);
    assert(nmea::part(payload, 0) =~= a);
    law_armor_round_trip(payload);
}

/// A sentence that is part of a longer message is refused.
pub proof fn law_partial_sentence_is_refused(
    payload: Seq<bool>,
    channel: char,
    seq_id: u8,
    i: int,
)
    requires
        0 <= i < nmea::part_count(payload),
        nmea::part_count(payload) > 1,
        channel != ',',
        channel != '*',
    ensures
        nmea::parsed(nmea::sentence(payload, channel, seq_id, i)) is None,
{
    let f = nmea::body_fields(payload, channel, seq_id, i);
    let total = nmea::part_count(payload);
    lemma_sentence_opens(payload, channel, seq_id, i);
    lemma_decimal_len(total);
    if total < 10 {
        assert(text::decimal(total)[0] == text::digit(total as int));
        assert(text::digit(total as int) != '1');
    }
    assert(f[1] != seq!['1']);
}

/// Any change of the checksum makes the reader refuse the sentence.
pub proof fn law_wrong_checksum_is_refused(body: Seq<char>, checksum: u8)
    requires
        !body.contains('*'),
        checksum != nmea::body_checksum(body),
    ensures
        nmea::parsed(seq!['!'] + body + seq!['*'] + text::hex_byte(checksum)) is None,
{
    let line = seq!['!'] + body + seq!['*'] + text::hex_byte(checksum);
    let rest = line.skip(1);
    let tail = text::hex_byte(checksum);
    assert(rest =~= body + seq!['*'] + tail);
    text::lemma_find_after(body, tail, '*');
    assert(rest.take(body.len() as int) =~= body);
    assert(rest.skip(body.len() as int + 1) =~= tail);
    lemma_hex_is_read(checksum);
}

/// One changed byte changes the exclusive or of all by the difference.
proof fn lemma_xor_update(s: Seq<u8>, i: int, b: u8)
    requires
        0 <= i < s.len(),
    ensures
        nmea::xor_bytes(s.update(i, b)) == nmea::xor_bytes(s) ^ (s[i] ^ b),
    decreases s.len(),
{
    let front = s.drop_last();
    let x = nmea::xor_bytes(front);
    let last = s.last();
    if i == s.len() - 1 {
        assert(s.update(i, b).drop_last() =~= front);
        assert(x ^ b == (x ^ last) ^ (last ^ b)) by (bit_vector);
    } else {
        let old = s[i];
        lemma_xor_update(front, i, b);
        assert(s.update(i, b).drop_last() =~= front.update(i, b));
        assert((x ^ (old ^ b)) ^ last == (x ^ last) ^ (old ^ b)) by (bit_vector);
    }
}

/// One changed character changes the checksum of an ASCII body.
proof fn lemma_checksum_differs(body: Seq<char>, i: int, c: char)
    requires
        0 <= i < body.len(),
        is_ascii_chars(body),
        (c as u32) < 128,
        c != body[i],
    ensures
        nmea::body_checksum(body.update(i, c)) != nmea::body_checksum(body),
{
    let changed = body.update(i, c);
    let (old, new, x) = (body[i] as u8, c as u8, nmea::body_checksum(body));
    assert(is_ascii_chars(changed));
    is_ascii_chars_encode_utf8(body);
    is_ascii_chars_encode_utf8(changed);
    assert(encode_utf8(changed) =~= encode_utf8(body).update(i, new));
    lemma_xor_update(encode_utf8(body), i, new);
    assert(old != new);
    assert(old != new ==> x ^ (old ^ new) != x) by (bit_vector);
}

/// Up to the place that is found, the character does not occur, and there it
/// does.
proof fn lemma_found(s: Seq<char>, c: char)
    ensures
        text::find(s, c) <= s.len(),
        forall|j: int| 0 <= j < text::find(s, c) ==> s[j] != c,
        text::find(s, c) < s.len() ==> s[text::find(s, c) as int] == c,
    decreases s.len(),
{
    if s.len() > 0 && s[0] != c {
        let rest = s.drop_first();
        lemma_found(rest, c);
        assert forall|j: int| 0 <= j < text::find(s, c) implies s[j] != c by {
            if j > 0 {
                assert(rest[j - 1] != c);
            }
        }
    }
}

proof fn lemma_trim_keeps(s: Seq<char>, c: char)
    requires
        s.contains(c),
        !text::is_space(c),
    ensures
        text::trim_start(s).contains(c),
        text::trim_end(s).contains(c),
    decreases s.len(),
{
    let i = choose|i: int| 0 <= i < s.len() && s[i] == c;
    if text::is_space(s[0]) {
        assert(s.drop_first()[i - 1] == c);
        lemma_trim_keeps(s.drop_first(), c);
    }
    if text::is_space(s.last()) {
        assert(s.drop_last()[i] == c);
        lemma_trim_keeps(s.drop_last(), c);
    }
}

/// A star is no part of a checksum.
proof fn lemma_star_is_no_number(s: Seq<char>)
    requires
        s.contains('*'),
    ensures
        text::byte_number(text::trim_end(text::trim_start(s)), 16) is None,
{
    lemma_trim_keeps(s, '*');
    lemma_trim_keeps(text::trim_start(s), '*');
    let t = text::trim_end(text::trim_start(s));
    let i = choose|i: int| 0 <= i < t.len() && t[i] == '*';
    if t[0] == '+' {
        assert(t.drop_first()[i - 1] == '*');
        assert(text::digit_value(t.drop_first()[i - 1], 16) is None);
    } else {
        assert(text::digit_value(t[i], 16) is None);
    }
}

/// One changed character between `!` and `*` makes the reader refuse the line,
/// whatever ASCII character it becomes.
pub proof fn law_changed_character_is_refused(line: Seq<char>, i: int, c: char)
    requires
        nmea::parsed(line) is Some,
        is_ascii_chars(line),
        (c as u32) < 128,
        1 <= i <= text::find(line.skip(1), '*'),
        c != line[i],
    ensures
        nmea::parsed(line.update(i, c)) is None,
{
    let rest = line.skip(1);
    let star = text::find(rest, '*') as int;
    let body = rest.take(star);
    let changed = line.update(i, c);
    let changed_rest = changed.skip(1);
    let tail = rest.skip(star + 1);
    lemma_found(rest, '*');
    assert(changed_rest =~= rest.update(i - 1, c));
    if c == '*' {
        let front = rest.take(i - 1);
        let behind = rest.skip(i);
        assert(!front.contains('*'));
        assert(changed_rest =~= front + seq!['*'] + behind);
        text::lemma_find_after(front, behind, '*');
        assert(changed_rest.skip(i) =~= behind);
        assert(behind[star - i] == '*');
        lemma_star_is_no_number(behind);
    } else {
        let new_body = body.update(i - 1, c);
        assert(!new_body.contains('*'));
        assert(changed_rest =~= new_body + seq!['*'] + tail);
        text::lemma_find_after(new_body, tail, '*');
        assert(changed_rest.take(star) =~= new_body);
        assert(changed_rest.skip(star + 1) =~= tail);
        assert(body =~= line.subrange(1, star + 1));
        assert(is_ascii_chars(body));
        lemma_checksum_differs(body, i - 1, c);
    }
}

} // verus!
