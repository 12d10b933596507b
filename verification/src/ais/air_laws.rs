//! What a frame looks like on the air, bit by bit.

use super::bits;
use super::frame;
use super::frame_laws;
use vstd::arithmetic::power2::*;
use vstd::prelude::*;

verus! {

/// The bits of a flag: six ones between zeros.
pub open spec fn flag() -> Seq<bool> {
    seq![false, true, true, true, true, true, true, false]
}

/// Every byte leaves with its least significant bit first: the bits of a byte
/// of the payload, which begins with the most significant one, are sent from the
/// last to the first. A payload that ends within a byte is filled up with
/// zeros.
pub proof fn law_bytes_leave_lsb_first(payload: Seq<bool>, k: int, j: int)
    requires
        0 <= k,
        8 * k < payload.len(),
        0 <= j < 8,
    ensures
        frame::checked(payload).len() == 8 * ((payload.len() + 7) / 8) + 16,
        frame::checked(payload)[8 * k + j] == (8 * k + 7 - j < payload.len() && payload[8 * k + 7
            - j]),
{
    let pad = bits::padded(payload, 8);
    let data = frame::byte_swapped(pad);
    bits::lemma_field_len(!frame::crc(data) as int, 16);
    assert(data[8 * k + j] == pad[8 * k + 7 - j]);
}

/// Behind the data stands the inverted CRC of the data, its least significant
/// bit first.
pub proof fn law_check_sequence_follows(payload: Seq<bool>, i: int)
    requires
        0 <= i < 16,
    ensures
        ({
            let sent = frame::checked(payload);
            let n = sent.len() - 16;
            &&& n == 8 * ((payload.len() + 7) / 8)
            &&& sent[n + i] <==> ((0xFFFF - frame::crc(sent.take(n))) / (pow2(i as nat) as int)) % 2
                == 1
        }),
{
    let data = frame::byte_swapped(bits::padded(payload, 8));
    let c = frame::crc(data);
    bits::lemma_field_len(!c as int, 16);
    frame::lemma_lsb_bit(!c as int, 16, i);
    assert(!c == 0xFFFF - c) by (bit_vector);
    assert(frame::checked(payload).take(data.len() as int) =~= data);
}

/// A frame is a training sequence of 24 alternating bits that begins with a 0, a
/// flag, the stuffed data with their check sequence, and a flag.
pub proof fn law_frame_layout(payload: Seq<bool>)
    ensures
        ({
            let sent = frame::frame_bits(payload);
            let body = frame::stuffed(frame::checked(payload));
            &&& sent.len() == 24 + 8 + body.len() + 8
            &&& forall|i: int| 0 <= i < 24 ==> (#[trigger] sent[i] <==> i % 2 == 1)
            &&& sent.subrange(24, 32) == flag()
            &&& sent.subrange(32, 32int + body.len()) == body
            &&& sent.skip(32int + body.len()) == flag()
        }),
{
    frame_laws::lemma_flag_bits();
    let sent = frame::frame_bits(payload);
    let body = frame::stuffed(frame::checked(payload));
    assert(sent.subrange(24, 32) =~= flag());
    assert(sent.subrange(32, 32int + body.len()) =~= body);
    assert(sent.skip(32int + body.len()) =~= flag());
}

/// Five ones in a row from bit `i` on.
pub open spec fn five_ones_at(s: Seq<bool>, i: int) -> bool {
    s[i] && s[i + 1] && s[i + 2] && s[i + 3] && s[i + 4]
}

/// Nowhere five ones in a row.
pub open spec fn has_short_runs(s: Seq<bool>) -> bool {
    forall|i: int| 0 <= i <= s.len() - 5 ==> !#[trigger] five_ones_at(s, i)
}

/// Ones at the end of `s`.
spec fn trailing(s: Seq<bool>) -> nat
    decreases s.len(),
{
    if s.len() == 0 || !s.last() {
        0
    } else {
        trailing(s.drop_last()) + 1
    }
}

proof fn lemma_trailing(s: Seq<bool>)
    ensures
        trailing(s) <= s.len(),
        forall|i: int| s.len() - trailing(s) <= i < s.len() ==> #[trigger] s[i],
    decreases s.len(),
{
    if s.len() > 0 && s.last() {
        let t = s.drop_last();
        lemma_trailing(t);
        assert forall|i: int| s.len() - trailing(s) <= i < s.len() implies #[trigger] s[i] by {
            if i < t.len() {
                assert(t[i] == s[i]);
            }
        }
    }
}

proof fn lemma_nothing_stuffed(s: Seq<bool>)
    requires
        has_short_runs(s),
    ensures
        frame::stuff(s) == (s, trailing(s)),
        trailing(s) <= 4,
    decreases s.len(),
{
    if s.len() > 0 {
        let t = s.drop_last();
        assert forall|i: int| 0 <= i <= t.len() - 5 implies !#[trigger] five_ones_at(t, i) by {
            assert(!five_ones_at(s, i));
        }
        lemma_nothing_stuffed(t);
        lemma_trailing(s);
        if trailing(s) >= 5 {
            assert(five_ones_at(s, s.len() - 5));
        }
        assert(frame::stuffed(s) =~= s);
    } else {
        assert(frame::stuffed(s) =~= s);
    }
}

/// Data without five ones in a row are sent as they are.
pub proof fn law_short_runs_are_not_stuffed(s: Seq<bool>)
    requires
        has_short_runs(s),
    ensures
        frame::stuffed(s) == s,
{
    lemma_nothing_stuffed(s);
}

proof fn lemma_stuff_append(a: Seq<bool>, b: Seq<bool>)
    requires
        frame::stuff(a).1 == 0,
    ensures
        frame::stuff(a + b).0 == frame::stuff(a).0 + frame::stuff(b).0,
        frame::stuff(a + b).1 == frame::stuff(b).1,
    decreases b.len(),
{
    if b.len() == 0 {
        assert(a + b =~= a);
        assert(frame::stuff(a).0 + frame::stuff(b).0 =~= frame::stuff(a).0);
    } else {
        assert((a + b).drop_last() =~= a + b.drop_last());
        lemma_stuff_append(a, b.drop_last());
        assert(frame::stuff(a + b).0 =~= frame::stuff(a).0 + frame::stuff(b).0);
    }
}

proof fn lemma_stuff_push(s: Seq<bool>, bit: bool)
    ensures
        frame::stuff(s.push(bit)) == ({
            let (out, ones) = frame::stuff(s);
            if !bit {
                (out.push(false), 0)
            } else if ones == 4 {
                (out.push(true).push(false), 0)
            } else {
                (out.push(true), ones + 1)
            }
        }),
{
    assert(s.push(bit).drop_last() =~= s);
}

/// The first five ones in a row are followed by a stuffed 0, and what comes
/// after it is stuffed as if it stood alone.
pub proof fn law_five_ones_are_stuffed(head: Seq<bool>, rest: Seq<bool>)
    requires
        has_short_runs(head),
        head.len() > 0 ==> !head.last(),
    ensures
        frame::stuffed(head + seq![true, true, true, true, true] + rest) == head + seq![
            true,
            true,
            true,
            true,
            true,
            false,
        ] + frame::stuffed(rest),
{
    lemma_nothing_stuffed(head);
    let h1 = head.push(true);
    let h2 = h1.push(true);
    let h3 = h2.push(true);
    let h4 = h3.push(true);
    let h5 = h4.push(true);
    lemma_stuff_push(head, true);
    lemma_stuff_push(h1, true);
    lemma_stuff_push(h2, true);
    lemma_stuff_push(h3, true);
    lemma_stuff_push(h4, true);
    let run = head + seq![true, true, true, true, true];
    assert(run =~= h5);
    lemma_stuff_append(run, rest);
    assert(frame::stuffed(run) =~= head + seq![true, true, true, true, true, false]);
}

/// What a receiver does with a frame: data that are whole bytes, six at least
/// besides the check sequence, and leave the fixed CRC remainder give their
/// payload, every byte turned around and without the check sequence; all other
/// data of up to 1273 bits give nothing.
pub proof fn law_received_bytes_are_lsb_first(data: Seq<bool>)
    requires
        data.len() <= 1273,
    ensures
        ({
            let frames = frame::deframe(frame::opened(), frame::stuffed(data) + flag()).1;
            if data.len() >= 64 && data.len() % 8 == 0 && frame::crc(data) == 0xF0B8 {
                &&& frames.len() == 1
                &&& frames[0].len() == data.len() - 16
                &&& forall|k: int, j: int|
                    0 <= k && 8 * k < data.len() - 16 && 0 <= j < 8 ==> #[trigger] frames[0][8 * k
                        + j] == data[8 * k + 7 - j]
            } else {
                frames.len() == 0
            }
        }),
{
    let s = frame::opened();
    frame_laws::lemma_received(data);
    let frames = frame::deframe(s, frame::stuffed(data) + flag()).1;
    if data.len() >= 64 && data.len() % 8 == 0 && frame::crc(data) == 0xF0B8 {
        let body = data.take(data.len() - 16);
        assert forall|k: int, j: int|
            0 <= k && 8 * k < data.len() - 16 && 0 <= j < 8 implies #[trigger] frames[0][8 * k + j]
            == data[8 * k + 7 - j] by {
            assert(frames[0][8 * k + j] == body[8 * k + 7 - j]);
        }
    }
}

/// NRZI: the first level is high exactly for a 0, since it was low before, and
/// after that a 0 changes the level and a 1 keeps it.
pub proof fn law_zeros_change_the_level(bits: Seq<bool>)
    ensures
        frame::levels(bits).len() == bits.len(),
        bits.len() > 0 ==> frame::levels(bits)[0] == !bits[0],
        forall|h: int, i: int|
            0 <= h && i == h + 1 && i < bits.len() ==> (#[trigger] frame::levels(bits)[i]
                == #[trigger] frame::levels(bits)[h] <==> bits[i]),
    decreases bits.len(),
{
    if bits.len() > 0 {
        let head = bits.drop_last();
        let r = frame::levels(bits);
        let before = frame::levels(head);
        law_zeros_change_the_level(head);
        assert forall|h: int, i: int| 0 <= h && i == h + 1 && i < bits.len() implies (
        #[trigger] r[i] == #[trigger] r[h] <==> bits[i]) by {
            assert(r[h] == before[h]);
            if i < head.len() {
                assert(r[i] == before[i]);
                assert(head[i] == bits[i]);
            } else {
                assert(before[h] == before.last());
            }
        }
        if head.len() > 0 {
            assert(r[0] == before[0] && head[0] == bits[0]);
        }
    }
}

/// Decoding NRZI: a level that stays is a 1, a level that changes is a 0.
pub proof fn law_changes_are_zeros(before: bool, levels: Seq<bool>)
    ensures
        frame::level_bits(before, levels).len() == levels.len(),
        levels.len() > 0 ==> (frame::level_bits(before, levels)[0] <==> levels[0] == before),
        forall|h: int, i: int|
            0 <= h && i == h + 1 && i < levels.len() ==> (frame::level_bits(before, levels)[i]
                <==> #[trigger] levels[i] == #[trigger] levels[h]),
{
}

/// Seven ones in a row end a frame: after them no frame is open.
pub proof fn law_seven_ones_abort(s: frame::DeframerState)
    requires
        s.in_frame ==> s.ones <= 6,
    ensures
        ({
            let ones = seq![true, true, true, true, true, true, true];
            &&& !frame::deframe(s, ones).0.in_frame
            &&& frame::deframe(s, ones).1.len() == 0
        }),
{
    let f0 = Seq::<bool>::empty();
    let f1 = f0.push(true);
    let f2 = f1.push(true);
    let f3 = f2.push(true);
    let f4 = f3.push(true);
    let f5 = f4.push(true);
    let f6 = f5.push(true);
    let f7 = f6.push(true);
    assert(f7 =~= seq![true, true, true, true, true, true, true]);
    frame_laws::lemma_one_is_no_flag();
    frame_laws::lemma_deframe_push(s, f0, true);
    frame_laws::lemma_deframe_push(s, f1, true);
    frame_laws::lemma_deframe_push(s, f2, true);
    frame_laws::lemma_deframe_push(s, f3, true);
    frame_laws::lemma_deframe_push(s, f4, true);
    frame_laws::lemma_deframe_push(s, f5, true);
    frame_laws::lemma_deframe_push(s, f6, true);
}

/// A burst is the levels of a frame and the last of them four times more.
pub proof fn law_burst_layout(payload: Seq<bool>)
    ensures
        ({
            let sent = super::burst_levels(payload);
            let body = frame::levels(frame::frame_bits(payload));
            &&& body.len() == frame::frame_bits(payload).len() >= 40
            &&& sent.len() == body.len() + 4
            &&& sent.take(body.len() as int) == body
            &&& forall|i: int| body.len() <= i < sent.len() ==> #[trigger] sent[i] == body.last()
        }),
{
    let sent = super::burst_levels(payload);
    let body = frame::levels(frame::frame_bits(payload));
    law_zeros_change_the_level(frame::frame_bits(payload));
    law_frame_layout(payload);
    assert(sent.take(body.len() as int) =~= body);
}

} // verus!
