//! NMEA 0183: AIS payloads as `!AIVDM` sentences, as chart plotters expect
//! them. Every six bits become one printable character.

use super::bits;
use crate::text;
use vstd::arithmetic::power2::*;
use vstd::prelude::*;
use vstd::string::*;
use vstd::utf8::*;

verus! {

/// At most that many payload characters per sentence, so that it stays within
/// 82 characters.
pub const MAX_CHARS: usize = 60;

/// Printable character of a six-bit group.
pub open spec fn armor_char(v: nat) -> char {
    if v < 40 {
        (v + 48) as char
    } else {
        (v + 56) as char
    }
}

/// The characters of a payload, its last group filled up with zeros.
pub open spec fn armored(payload: Seq<bool>) -> Seq<char> {
    let pad = bits::padded(payload, 6);
    Seq::new(
        pad.len() / 6,
        |k: int| armor_char(bits::value(pad.subrange(6 * k, 6 * k + 6))),
    )
}

/// Number of zeros in the last group.
pub open spec fn fill_bits(payload: Seq<bool>) -> nat {
    (bits::padded(payload, 6).len() - payload.len()) as nat
}

/// Armours a payload: its characters and the number of fill bits.
pub fn armor(payload: &[bool]) -> (r: (String, u8))
    ensures
        r.0@ == armored(payload@),
        r.1 == fill_bits(payload@),
        r.1 < 6,
{
    let total: usize = payload.len();
    let ghost pad = bits::padded(payload@, 6);
    let mut letters: Vec<char> = Vec::new();
    let mut pos: usize = 0;
    while pos < total
        invariant
            total == payload@.len(),
            pad == bits::padded(payload@, 6),
            pos <= total,
            pos == total || pos == 6 * letters@.len(),
            letters@.len() == (pos + 5) as int / 6,
            forall|k: int|
                0 <= k < letters@.len() ==> #[trigger] letters@[k] == armor_char(
                    bits::value(pad.subrange(6 * k, 6 * k + 6)),
                ),
        decreases total - pos,
    {
        let left: usize = total - pos;
        let mut v: u8 = 0;
        let mut j: usize = 0;
        let ghost group = pad.subrange(pos as int, pos + 6);
        proof {
            assert(group.take(0) =~= Seq::<bool>::empty());
            lemma2_to64();
        }
        while j < 6
            invariant
                j <= 6,
                pos < total,
                left == total - pos,
                total == payload@.len(),
                pad == bits::padded(payload@, 6),
                pos + 6 <= pad.len(),
                group == pad.subrange(pos as int, pos + 6),
                v == bits::value(group.take(j as int)),
                v < pow2(j as nat),
            decreases 6 - j,
        {
            let b: u8 = if j < left && payload[pos + j] {
                1
            } else {
                0
            };
            assert(group.take(j + 1).drop_last() =~= group.take(j as int));
            proof {
                lemma2_to64();
                bits::lemma_value_bound(group.take(j + 1));
                if j < 5 {
                    lemma_pow2_strictly_increases(j as nat, 5);
                }
            }
            v = 2 * v + b;
            j += 1;
        }
        proof {
            lemma2_to64();
            assert(group.take(6) =~= group);
        }
        letters.push(
            if v < 40 {
                (v + 48) as char
            } else {
                (v + 56) as char
            },
        );
        if left < 6 {
            pos = total;
        } else {
            pos += 6;
        }
    }
    assert(letters@ =~= armored(payload@));
    let fill: u8 = ((6 - total % 6) % 6) as u8;
    (text::string(&letters), fill)
}

/// Six-bit group of a printable character.
pub open spec fn armor_code(c: char) -> Option<nat> {
    if 48 <= c as int <= 87 {
        Some((c as int - 48) as nat)
    } else if 96 <= c as int <= 119 {
        Some((c as int - 56) as nat)
    } else {
        None
    }
}

/// Every character stands for a group.
pub open spec fn all_armor(s: Seq<char>) -> bool {
    forall|i: int| 0 <= i < s.len() ==> #[trigger] armor_code(s[i]) is Some
}

/// The bits of the characters, fill included.
pub open spec fn group_bits(s: Seq<char>) -> Seq<bool>
    decreases s.len(),
{
    if s.len() == 0 {
        Seq::empty()
    } else {
        group_bits(s.drop_last()) + bits::field(armor_code(s.last()).unwrap_or(0) as int, 6)
    }
}

/// The payload in the characters, without the last `fill` bits.
pub open spec fn unarmored(s: Seq<char>, fill: nat) -> Option<Seq<bool>> {
    if all_armor(s) && fill <= group_bits(s).len() {
        Some(group_bits(s).take(group_bits(s).len() - fill))
    } else {
        None
    }
}

/// The other direction of [`armor`]; `None` if a character is no payload or
/// there are fewer bits than fill bits.
pub fn unarmor(payload: &str, fill: u8) -> (r: Option<Vec<bool>>)
    ensures
        match r {
            Some(v) => unarmored(payload@, fill as nat) == Some(v@),
            None => unarmored(payload@, fill as nat) is None,
        },
{
    let letters: Vec<char> = text::chars(payload);
    let mut w: bits::BitWriter = bits::BitWriter::default();
    let mut i: usize = 0;
    assert(letters@.take(0) =~= Seq::<char>::empty());
    while i < letters.len()
        invariant
            i <= letters@.len(),
            letters@ == payload@,
            w@ == group_bits(letters@.take(i as int)),
            forall|k: int| 0 <= k < i ==> #[trigger] armor_code(letters@[k]) is Some,
        decreases letters@.len() - i,
    {
        let c: char = letters[i];
        let v: u8 = if '0' <= c && c <= 'W' {
            c as u8 - 48
        } else if '`' <= c && c <= 'w' {
            c as u8 - 56
        } else {
            assert(armor_code(letters@[i as int]) is None);
            return None;
        };
        w.uint(v as u64, 6);
        i += 1;
        assert(letters@.take(i as int).drop_last() =~= letters@.take(i - 1));
    }
    assert(letters@.take(i as int) =~= letters@);
    let mut out: Vec<bool> = w.into_bits();
    if out.len() < fill as usize {
        return None;
    }
    let keep: usize = out.len() - fill as usize;
    out.truncate(keep);
    Some(out)
}

/// Exclusive or of all bytes.
pub open spec fn xor_bytes(bytes: Seq<u8>) -> u8
    decreases bytes.len(),
{
    if bytes.len() == 0 {
        0
    } else {
        xor_bytes(bytes.drop_last()) ^ bytes.last()
    }
}

/// Checksum of a sentence body: exclusive or over its UTF-8 bytes.
pub open spec fn body_checksum(body: Seq<char>) -> u8 {
    xor_bytes(encode_utf8(body))
}

/// Checksum of a sentence body.
pub fn checksum(body: &str) -> (r: u8)
    ensures
        r == body_checksum(body@),
{
    let bytes: &[u8] = body.as_bytes();
    let mut acc: u8 = 0;
    let mut i: usize = 0;
    assert(bytes@.take(0) =~= Seq::<u8>::empty());
    while i < bytes.len()
        invariant
            i <= bytes@.len(),
            acc == xor_bytes(bytes@.take(i as int)),
        decreases bytes@.len() - i,
    {
        acc = acc ^ bytes[i];
        i += 1;
        assert(bytes@.take(i as int).drop_last() =~= bytes@.take(i - 1));
    }
    assert(bytes@.take(i as int) =~= bytes@);
    acc
}

/// Number of sentences that a payload needs; an empty one needs one too.
pub open spec fn part_count(payload: Seq<bool>) -> nat {
    let n = armored(payload).len();
    if n == 0 {
        1
    } else {
        ((n + MAX_CHARS - 1) / MAX_CHARS as int) as nat
    }
}

/// Payload characters of sentence `i`.
pub open spec fn part(payload: Seq<bool>, i: int) -> Seq<char> {
    let a = armored(payload);
    a.subrange(
        MAX_CHARS * i,
        if MAX_CHARS * i + MAX_CHARS < a.len() {
            MAX_CHARS * i + MAX_CHARS
        } else {
            a.len() as int
        },
    )
}

/// The parts of a sentence body between its commas: tag, number of sentences,
/// number of this one, a digit that links the sentences of one message,
/// channel, payload, fill bits.
pub open spec fn fields(
    total: nat,
    i: nat,
    seq_id: nat,
    channel: char,
    chunk: Seq<char>,
    fill: nat,
) -> Seq<Seq<char>> {
    seq![
        seq!['A', 'I', 'V', 'D', 'M'],
        text::decimal(total),
        text::decimal(i + 1),
        if total > 1 {
            text::decimal(seq_id)
        } else {
            Seq::empty()
        },
        seq![channel],
        chunk,
        text::decimal(fill),
    ]
}

/// The fields of sentence `i` of a payload.
pub open spec fn body_fields(payload: Seq<bool>, channel: char, seq_id: u8, i: int) -> Seq<
    Seq<char>,
> {
    let total = part_count(payload);
    fields(
        total,
        i as nat,
        (seq_id % 10) as nat,
        channel,
        part(payload, i),
        if i + 1 == total {
            fill_bits(payload)
        } else {
            0
        },
    )
}

/// Sentence `i` of a payload.
pub open spec fn sentence(payload: Seq<bool>, channel: char, seq_id: u8, i: int) -> Seq<char> {
    let body = text::join(body_fields(payload, channel, seq_id, i), ',');
    seq!['!'] + body + seq!['*'] + text::hex_byte(body_checksum(body))
}

/// The sentences of a payload, one or more; long messages such as type 5 need
/// two. `seq_id` links the parts of one message.
pub fn sentences(payload: &[bool], channel: char, seq_id: u8) -> (r: Vec<String>)
    ensures
        r@.len() == part_count(payload@),
        r@.len() >= 1,
        forall|i: int|
            0 <= i < r@.len() ==> (#[trigger] r@[i])@ == sentence(payload@, channel, seq_id, i),
{
    let (armoured, fill) = armor(payload);
    let letters: Vec<char> = text::chars(&armoured);
    let total: usize = if letters.len() == 0 {
        1
    } else if letters.len() % MAX_CHARS > 0 {
        letters.len() / MAX_CHARS + 1
    } else {
        letters.len() / MAX_CHARS
    };
    let mut out: Vec<String> = Vec::new();
    let mut i: usize = 0;
    while i < total
        invariant
            i <= total,
            total == part_count(payload@),
            letters@ == armored(payload@),
            fill == fill_bits(payload@),
            out@.len() == i,
            forall|k: int|
                0 <= k < i ==> (#[trigger] out@[k])@ == sentence(payload@, channel, seq_id, k),
        decreases total - i,
    {
        let size: usize = letters.len();
        let start: usize = MAX_CHARS * i;
        let end: usize = if size - start > MAX_CHARS {
            start + MAX_CHARS
        } else {
            size
        };
        let chunk: Vec<char> = text::copy(&letters, start, end);
        let f: u8 = if i + 1 == total {
            fill
        } else {
            0
        };
        let line: String = write_sentence(total, i, seq_id % 10, channel, &chunk, f);
        assert(chunk@ =~= part(payload@, i as int));
        out.push(line);
        i += 1;
    }
    out
}

fn write_body(
    total: usize,
    i: usize,
    seq_id: u8,
    channel: char,
    chunk: &[char],
    fill: u8,
) -> (body: String)
    requires
        i < total,
    ensures
        body@ == text::join(
            fields(
                total as nat,
                i as nat,
                seq_id as nat,
                channel,
                chunk@,
                fill as nat,
            ),
            ',',
        ),
{
    let ghost p = fields(
        total as nat,
        i as nat,
        seq_id as nat,
        channel,
        chunk@,
        fill as nat,
    );
    let mut body = String::new();
    push_tag(&mut body);
    body.push(',');
    let ghost s1 = body@;
    assert(s1 =~= p[0] + seq![',']);
    text::push_decimal(&mut body, total as u64);
    body.push(',');
    let ghost s2 = body@;
    assert(s2 =~= s1 + (p[1] + seq![',']));
    text::push_decimal(&mut body, (i + 1) as u64);
    body.push(',');
    let ghost s3 = body@;
    assert(s3 =~= s2 + (p[2] + seq![',']));
    if total > 1 {
        text::push_decimal(&mut body, seq_id as u64);
    }
    body.push(',');
    let ghost s4 = body@;
    assert(s4 =~= s3 + (p[3] + seq![',']));
    body.push(channel);
    body.push(',');
    let ghost s5 = body@;
    assert(s5 =~= s4 + (p[4] + seq![',']));
    text::push_chars(&mut body, chunk);
    body.push(',');
    let ghost s6 = body@;
    assert(s6 =~= s5 + (p[5] + seq![',']));
    text::push_decimal(&mut body, fill as u64);
    proof {
        text::lemma_join_seven(p, ',');
        let t6 = p[5] + seq![','] + p[6];
        let t5 = p[4] + seq![','] + t6;
        let t4 = p[3] + seq![','] + t5;
        let t3 = p[2] + seq![','] + t4;
        let t2 = p[1] + seq![','] + t3;
        assert(body@ =~= s5 + t6);
        assert(s5 + t6 =~= s4 + t5);
        assert(s4 + t5 =~= s3 + t4);
        assert(s3 + t4 =~= s2 + t3);
        assert(s2 + t3 =~= s1 + t2);
        assert(s1 + t2 =~= p[0] + seq![','] + t2);
    }
    body
}

fn write_sentence(
    total: usize,
    i: usize,
    seq_id: u8,
    channel: char,
    chunk: &[char],
    fill: u8,
) -> (line: String)
    requires
        i < total,
    ensures
        ({
            let body = text::join(
                fields(
                    total as nat,
                    i as nat,
                    seq_id as nat,
                    channel,
                    chunk@,
                    fill as nat,
                ),
                ',',
            );
            line@ == seq!['!'] + body + seq!['*'] + text::hex_byte(body_checksum(body))
        }),
{
    let body: String = write_body(total, i, seq_id, channel, chunk, fill);
    let mut line = String::new();
    line.push('!');
    text::push_str(&mut line, &body);
    line.push('*');
    text::push_hex(&mut line, checksum(&body));
    assert(line@ =~= seq!['!'] + body@ + seq!['*'] + text::hex_byte(body_checksum(body@)));
    line
}

fn push_tag(out: &mut String)
    ensures
        final(out)@ == old(out)@ + seq!['A', 'I', 'V', 'D', 'M'],
{
    let ghost before = out@;
    out.push('A');
    out.push('I');
    out.push('V');
    out.push('D');
    out.push('M');
    assert(out@ =~= before + seq!['A', 'I', 'V', 'D', 'M']);
}

/// What a line says: `!`, a body of seven fields of which the second is `1`,
/// `*`, and the checksum of the body in hexadecimal.
pub open spec fn parsed(line: Seq<char>) -> Option<Seq<bool>> {
    if line.len() == 0 || line[0] != '!' {
        None
    } else {
        let rest = line.skip(1);
        let star = text::find(rest, '*') as int;
        let body = rest.take(star);
        let fields = text::split(body, ',');
        if star >= rest.len() || text::byte_number(
            text::trim_end(text::trim_start(rest.skip(star + 1))),
            16,
        ) != Some(body_checksum(body)) || fields.len() != 7 || fields[1] != seq!['1'] {
            None
        } else {
            match text::byte_number(fields[6], 10) {
                None => None,
                Some(fill) => unarmored(fields[5], fill as nat),
            }
        }
    }
}

/// Reads a sentence that stands alone and tests its checksum.
pub fn parse(line: &str) -> (r: Option<Vec<bool>>)
    ensures
        match r {
            Some(v) => parsed(line@) == Some(v@),
            None => parsed(line@) is None,
        },
{
    let letters: Vec<char> = text::chars(line);
    if letters.len() == 0 || letters[0] != '!' {
        return None;
    }
    let ghost rest = letters@.skip(1);
    let star: usize = text::find_from(&letters, '*', 1);
    if star == letters.len() {
        return None;
    }
    let body: Vec<char> = text::copy(&letters, 1, star);
    assert(body@ =~= rest.take(star - 1));
    let tail: Vec<char> = text::copy(&letters, star + 1, letters.len());
    assert(tail@ =~= rest.skip(star as int));
    let digits: Vec<char> = text::trim(&tail);
    match text::parse_byte(&digits, 16) {
        None => {
            return None;
        },
        Some(c) => {
            if c != checksum(&text::string(&body)) {
                return None;
            }
        },
    }
    let fields: Vec<Vec<char>> = text::split_at(&body, ',');
    if fields.len() != 7 {
        return None;
    }
    assert(fields@[1]@ == text::split(body@, ',')[1]);
    assert(fields@[5]@ == text::split(body@, ',')[5]);
    assert(fields@[6]@ == text::split(body@, ',')[6]);
    if fields[1].len() != 1 || fields[1][0] != '1' {
        assert(fields@[1]@ != seq!['1']);
        return None;
    }
    assert(fields@[1]@ =~= seq!['1']);
    match text::parse_byte(&fields[6], 10) {
        None => None,
        Some(fill) => unarmor(&text::string(&fields[5]), fill),
    }
}

} // verus!
