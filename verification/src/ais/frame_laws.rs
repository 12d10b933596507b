//! What holds of frames on their way from sender to receiver.

use super::bits;
use super::frame;
use vstd::arithmetic::power2::*;
use vstd::bits::*;
use vstd::prelude::*;

verus! {

/// Decoding NRZI levels gives back the bits that were encoded.
pub proof fn law_nrzi_round_trip(bits: Seq<bool>)
    ensures
        frame::level_bits(false, frame::levels(bits)) == bits,
    decreases bits.len(),
{
    if bits.len() > 0 {
        let head = bits.drop_last();
        law_nrzi_round_trip(head);
        assert(frame::level_bits(false, frame::levels(head)).len() == head.len());
        assert forall|i: int| 0 <= i < bits.len() implies #[trigger] frame::level_bits(
            false,
            frame::levels(bits),
        )[i] == bits[i] by {
            if i < head.len() {
                assert(frame::level_bits(false, frame::levels(head))[i] == head[i]);
            }
        }
    }
    assert(frame::level_bits(false, frame::levels(bits)) =~= bits);
}

proof fn lemma_crc_take(start: u16, s: Seq<bool>, i: int)
    requires
        0 <= i < s.len(),
    ensures
        frame::crc_from(start, s.take(i + 1)) == frame::crc_step(
            frame::crc_from(start, s.take(i)),
            s[i],
        ),
{
    assert(s.take(i + 1).drop_last() =~= s.take(i));
}

proof fn lemma_crc_append(start: u16, a: Seq<bool>, b: Seq<bool>)
    ensures
        frame::crc_from(start, a + b) == frame::crc_from(frame::crc_from(start, a), b),
    decreases b.len(),
{
    if b.len() == 0 {
        assert(a + b =~= a);
    } else {
        assert((a + b).drop_last() =~= a + b.drop_last());
        lemma_crc_append(start, a, b.drop_last());
    }
}

/// One register step as an operation on words, for the bit-vector solver.
spec fn word_step(crc: u16, word: u16, i: u16) -> u16 {
    if (crc & 1) != ((word >> i) & 1) {
        (crc >> 1) ^ 0x8408
    } else {
        crc >> 1
    }
}

proof fn lemma_word_step(start: u16, word: u16, i: int)
    requires
        0 <= i < 16,
    ensures
        frame::crc_from(start, frame::lsb_bits(word as int, 16).take(i + 1)) == word_step(
            frame::crc_from(start, frame::lsb_bits(word as int, 16).take(i)),
            word,
            i as u16,
        ),
{
    let s = frame::lsb_bits(word as int, 16);
    frame::lemma_lsb_bit(word as int, 16, i);
    lemma_crc_take(start, s, i);
    lemma_u16_shr_is_div(word, i as u16);
    let x = word >> (i as u16);
    let c = frame::crc_from(start, s.take(i));
    assert(x & 1 == x % 2) by (bit_vector);
    assert(c & 1 == c % 2) by (bit_vector);
}

/// The check sequence leaves the fixed remainder behind any data.
pub proof fn law_crc_residue(data: Seq<bool>)
    ensures
        frame::crc(data + frame::lsb_bits(!frame::crc(data) as int, 16)) == frame::CRC_GOOD,
{
    let c0 = frame::crc(data);
    let w = !c0;
    let s = frame::lsb_bits(w as int, 16);
    lemma_crc_append(0xFFFF, data, s);
    lemma_word_step(c0, w, 0);
    lemma_word_step(c0, w, 1);
    lemma_word_step(c0, w, 2);
    lemma_word_step(c0, w, 3);
    lemma_word_step(c0, w, 4);
    lemma_word_step(c0, w, 5);
    lemma_word_step(c0, w, 6);
    lemma_word_step(c0, w, 7);
    lemma_word_step(c0, w, 8);
    lemma_word_step(c0, w, 9);
    lemma_word_step(c0, w, 10);
    lemma_word_step(c0, w, 11);
    lemma_word_step(c0, w, 12);
    lemma_word_step(c0, w, 13);
    lemma_word_step(c0, w, 14);
    lemma_word_step(c0, w, 15);
    assert(s.take(0) =~= Seq::<bool>::empty());
    frame::lemma_lsb_bit(w as int, 16, 0);
    assert(s.take(16) =~= s);
    let c1 = frame::crc_from(c0, s.take(1));
    let c2 = frame::crc_from(c0, s.take(2));
    let c3 = frame::crc_from(c0, s.take(3));
    let c4 = frame::crc_from(c0, s.take(4));
    let c5 = frame::crc_from(c0, s.take(5));
    let c6 = frame::crc_from(c0, s.take(6));
    let c7 = frame::crc_from(c0, s.take(7));
    let c8 = frame::crc_from(c0, s.take(8));
    let c9 = frame::crc_from(c0, s.take(9));
    let c10 = frame::crc_from(c0, s.take(10));
    let c11 = frame::crc_from(c0, s.take(11));
    let c12 = frame::crc_from(c0, s.take(12));
    let c13 = frame::crc_from(c0, s.take(13));
    let c14 = frame::crc_from(c0, s.take(14));
    let c15 = frame::crc_from(c0, s.take(15));
    let c16 = frame::crc_from(c0, s.take(16));
    assert(c16 == 0xF0B8) by (bit_vector)
        requires
            w == !c0,
            c1 == word_step(c0, w, 0),
            c2 == word_step(c1, w, 1),
            c3 == word_step(c2, w, 2),
            c4 == word_step(c3, w, 3),
            c5 == word_step(c4, w, 4),
            c6 == word_step(c5, w, 5),
            c7 == word_step(c6, w, 6),
            c8 == word_step(c7, w, 7),
            c9 == word_step(c8, w, 8),
            c10 == word_step(c9, w, 9),
            c11 == word_step(c10, w, 10),
            c12 == word_step(c11, w, 11),
            c13 == word_step(c12, w, 12),
            c14 == word_step(c13, w, 13),
            c15 == word_step(c14, w, 14),
            c16 == word_step(c15, w, 15),
    ;
}

proof fn lemma_crc_step_injective(a: u16, b: u16, bit: bool)
    requires
        a != b,
    ensures
        frame::crc_step(a, bit) != frame::crc_step(b, bit),
{
    assert(a != b ==> (if (a & 1 == 1) != bit {
        (a >> 1) ^ 0x8408
    } else {
        a >> 1
    }) != (if (b & 1 == 1) != bit {
        (b >> 1) ^ 0x8408
    } else {
        b >> 1
    })) by (bit_vector);
}

/// Two bit sequences that differ in a single place never have the same CRC.
pub proof fn law_crc_detects_single_error(a: Seq<bool>, b: Seq<bool>, at: int)
    requires
        a.len() == b.len(),
        0 <= at < a.len(),
        a[at] != b[at],
        forall|i: int| 0 <= i < a.len() && i != at ==> a[i] == b[i],
    ensures
        frame::crc(a) != frame::crc(b),
    decreases a.len(),
{
    let (x, y) = (frame::crc(a.drop_last()), frame::crc(b.drop_last()));
    if at == a.len() - 1 {
        assert(a.drop_last() =~= b.drop_last());
        assert(((x >> 1) ^ 0x8408) != (x >> 1)) by (bit_vector);
    } else {
        law_crc_detects_single_error(a.drop_last(), b.drop_last(), at);
        lemma_crc_step_injective(x, y, a.last());
    }
}

pub open spec fn has_six_ones(s: Seq<bool>) -> bool {
    exists|i: int| 0 <= i <= s.len() - 6 && #[trigger] six_ones_at(s, i)
}

pub open spec fn six_ones_at(s: Seq<bool>, i: int) -> bool {
    s[i] && s[i + 1] && s[i + 2] && s[i + 3] && s[i + 4] && s[i + 5]
}

proof fn lemma_stuff_runs(s: Seq<bool>)
    ensures
        frame::stuff(s).1 <= 4,
        forall|i: int|
            0 <= i <= frame::stuffed(s).len() - 6 ==> !#[trigger] six_ones_at(
                frame::stuffed(s),
                i,
            ),
        frame::stuffed(s).len() >= frame::stuff(s).1,
        frame::stuffed(s).len() > frame::stuff(s).1 ==> !frame::stuffed(s)[frame::stuffed(s).len()
            - 1 - frame::stuff(s).1],
    decreases s.len(),
{
    if s.len() > 0 {
        let head = frame::stuffed(s.drop_last());
        let ones = frame::stuff(s.drop_last()).1;
        let out = frame::stuffed(s);
        lemma_stuff_runs(s.drop_last());
        assert forall|i: int| 0 <= i <= out.len() - 6 implies !#[trigger] six_ones_at(
            out,
            i,
        ) by {
            if i + 6 <= head.len() {
                assert(!six_ones_at(head, i));
            } else {
                if head.len() > ones {
                    assert(out[head.len() - 1 - ones] == head[head.len() - 1 - ones]);
                }
            }
        }
    }
}

/// Stuffed data never hold six ones in a row, so no flag.
pub proof fn law_stuffing_hides_flags(s: Seq<bool>)
    ensures
        !has_six_ones(frame::stuffed(s)),
{
    lemma_stuff_runs(s);
}

/// The newest `ones` bits in the register are ones and the one before is a 0.
spec fn run_on_top(shift: u8, ones: u32) -> bool {
    ||| ones == 0 && shift & 0x80 == 0
    ||| ones == 1 && shift & 0xC0 == 0x80
    ||| ones == 2 && shift & 0xE0 == 0xC0
    ||| ones == 3 && shift & 0xF0 == 0xE0
    ||| ones == 4 && shift & 0xF8 == 0xF0
    ||| ones == 5 && shift & 0xFC == 0xF8
    ||| ones == 6 && shift & 0xFE == 0xFC
}

/// A 0 behind fewer than six ones completes no flag.
proof fn lemma_shift_zero(shift: u8, ones: u32)
    requires
        run_on_top(shift, ones),
        ones <= 5,
    ensures
        shift >> 1 | 0u8 != 0x7E,
        run_on_top(shift >> 1 | 0u8, 0),
{
    assert(ones <= 5 && ((ones == 0 && shift & 0x80 == 0) || (ones == 1 && shift & 0xC0 == 0x80)
        || (ones == 2 && shift & 0xE0 == 0xC0) || (ones == 3 && shift & 0xF0 == 0xE0) || (ones
        == 4 && shift & 0xF8 == 0xF0) || (ones == 5 && shift & 0xFC == 0xF8)) ==> shift >> 1 | 0u8
        != 0x7E && (shift >> 1 | 0u8) & 0x80 == 0) by (bit_vector);
}

/// A 1 completes no flag.
proof fn lemma_shift_one(shift: u8, ones: u32)
    requires
        run_on_top(shift, ones),
        ones <= 5,
    ensures
        shift >> 1 | 0x80u8 != 0x7E,
        run_on_top(shift >> 1 | 0x80u8, (ones + 1) as u32),
{
    let next = shift >> 1 | 0x80u8;
    assert(next != 0x7E) by (bit_vector)
        requires
            next == shift >> 1 | 0x80u8,
    ;
    assert(shift & 0x80 == 0 ==> next & 0xC0 == 0x80) by (bit_vector)
        requires
            next == shift >> 1 | 0x80u8,
    ;
    assert(shift & 0xC0 == 0x80 ==> next & 0xE0 == 0xC0) by (bit_vector)
        requires
            next == shift >> 1 | 0x80u8,
    ;
    assert(shift & 0xE0 == 0xC0 ==> next & 0xF0 == 0xE0) by (bit_vector)
        requires
            next == shift >> 1 | 0x80u8,
    ;
    assert(shift & 0xF0 == 0xE0 ==> next & 0xF8 == 0xF0) by (bit_vector)
        requires
            next == shift >> 1 | 0x80u8,
    ;
    assert(shift & 0xF8 == 0xF0 ==> next & 0xFC == 0xF8) by (bit_vector)
        requires
            next == shift >> 1 | 0x80u8,
    ;
    assert(shift & 0xFC == 0xF8 ==> next & 0xFE == 0xFC) by (bit_vector)
        requires
            next == shift >> 1 | 0x80u8,
    ;
}

proof fn lemma_deframe_append(s: frame::DeframerState, a: Seq<bool>, b: Seq<bool>)
    ensures
        ({
            let (mid, first) = frame::deframe(s, a);
            let (end, second) = frame::deframe(mid, b);
            &&& frame::deframe(s, a + b).0 == end
            &&& frame::deframe(s, a + b).1 == first + second
        }),
    decreases b.len(),
{
    let (mid, first) = frame::deframe(s, a);
    if b.len() == 0 {
        assert(a + b =~= a);
        assert(first + Seq::<Seq<bool>>::empty() =~= first);
    } else {
        assert((a + b).drop_last() =~= a + b.drop_last());
        lemma_deframe_append(s, a, b.drop_last());
        assert(frame::deframe(s, a + b).1 =~= first + frame::deframe(mid, b).1);
    }
}

pub proof fn lemma_deframe_push(s: frame::DeframerState, bits: Seq<bool>, bit: bool)
    ensures
        ({
            let (mid, frames) = frame::deframe(s, bits);
            let (end, frame) = frame::deframe_step(mid, bit);
            &&& frame::deframe(s, bits.push(bit)).0 == end
            &&& frame::deframe(s, bits.push(bit)).1 == match frame {
                Some(payload) => frames.push(payload),
                None => frames,
            }
        }),
{
    assert(bits.push(bit).drop_last() =~= bits);
}

/// In a frame, stuffed data arrive as they were before stuffing.
proof fn lemma_deframe_stuffed(s: frame::DeframerState, source: Seq<bool>)
    requires
        s.in_frame,
        s.ones == 0,
        run_on_top(s.shift, 0),
        s.data.len() + source.len() <= frame::MAX_FRAME_BITS,
    ensures
        ({
            let (end, frames) = frame::deframe(s, frame::stuffed(source));
            &&& frames == Seq::<Seq<bool>>::empty()
            &&& end.in_frame
            &&& end.data == s.data + source
            &&& end.ones == frame::stuff(source).1
            &&& end.ones <= 4
            &&& run_on_top(end.shift, end.ones)
        }),
    decreases source.len(),
{
    if source.len() == 0 {
        assert(s.data + source =~= s.data);
    } else {
        let head = source.drop_last();
        lemma_deframe_stuffed(s, head);
        let (mid, frames) = frame::deframe(s, frame::stuffed(head));
        let out = frame::stuffed(source);
        assert(s.data + source =~= (s.data + head).push(source.last()));
        lemma_deframe_push(s, frame::stuffed(head), source.last());
        if !source.last() {
            lemma_shift_zero(mid.shift, mid.ones);
        } else {
            lemma_shift_one(mid.shift, mid.ones);
            if mid.ones == 4 {
                let one = frame::deframe_step(mid, true).0;
                lemma_deframe_push(s, frame::stuffed(head).push(true), false);
                lemma_shift_zero(one.shift, one.ones);
            }
        }
    }
}

pub proof fn lemma_flag_bits()
    ensures
        frame::flag_bits() == seq![false, true, true, true, true, true, true, false],
{
    reveal_with_fuel(bits::field, 9);
    assert(bits::field(0x7E, 8) =~= seq![false, true, true, true, true, true, true, false]);
    assert(frame::flag_bits() =~= seq![false, true, true, true, true, true, true, false]);
}

/// After a flag the deframer stands at the start of a frame, whatever came
/// before.
pub proof fn law_flag_synchronises(s: frame::DeframerState)
    ensures
        frame::deframe(s, frame::flag_bits()).0 == frame::opened(),
{
    lemma_flag_bits();
    let f0 = Seq::<bool>::empty();
    let f1 = f0.push(false);
    let f2 = f1.push(true);
    let f3 = f2.push(true);
    let f4 = f3.push(true);
    let f5 = f4.push(true);
    let f6 = f5.push(true);
    let f7 = f6.push(true);
    let f8 = f7.push(false);
    assert(f8 =~= frame::flag_bits());
    let s0 = s;
    let s1 = frame::deframe_step(s0, false).0;
    let s2 = frame::deframe_step(s1, true).0;
    let s3 = frame::deframe_step(s2, true).0;
    let s4 = frame::deframe_step(s3, true).0;
    let s5 = frame::deframe_step(s4, true).0;
    let s6 = frame::deframe_step(s5, true).0;
    let s7 = frame::deframe_step(s6, true).0;
    let s8 = frame::deframe_step(s7, false).0;
    lemma_deframe_push(s, f0, false);
    lemma_deframe_push(s, f1, true);
    lemma_deframe_push(s, f2, true);
    lemma_deframe_push(s, f3, true);
    lemma_deframe_push(s, f4, true);
    lemma_deframe_push(s, f5, true);
    lemma_deframe_push(s, f6, true);
    lemma_deframe_push(s, f7, false);
    let h0 = s0.shift;
    let h1 = s1.shift;
    let h2 = s2.shift;
    let h3 = s3.shift;
    let h4 = s4.shift;
    let h5 = s5.shift;
    let h6 = s6.shift;
    let h7 = s7.shift;
    let h8 = s8.shift;
    assert(h8 == 0x7E) by (bit_vector)
        requires
            h1 == h0 >> 1 | 0u8,
            h2 == h1 >> 1 | 0x80u8,
            h3 == h2 >> 1 | 0x80u8,
            h4 == h3 >> 1 | 0x80u8,
            h5 == h4 >> 1 | 0x80u8,
            h6 == h5 >> 1 | 0x80u8,
            h7 == h6 >> 1 | 0x80u8,
            h8 == h7 >> 1 | 0u8,
    ;
}

/// The first seven bits of a closing flag.
spec fn flag_head() -> Seq<bool> {
    seq![false, true, true, true, true, true, true]
}

/// A flag that ends a frame.
proof fn lemma_closing_flag(s: frame::DeframerState)
    requires
        s.in_frame,
        s.ones <= 4,
        run_on_top(s.shift, s.ones),
        s.data.len() + 7 <= frame::MAX_FRAME_BITS,
    ensures
        frame::deframe(s, frame::flag_bits()).0 == frame::opened(),
        frame::deframe(s, frame::flag_bits()).1 == match frame::accept(s.data + flag_head()) {
            Some(payload) => seq![payload],
            None => Seq::empty(),
        },
{
    law_flag_synchronises(s);
    lemma_flag_bits();
    let f0 = Seq::<bool>::empty();
    let f1 = f0.push(false);
    let f2 = f1.push(true);
    let f3 = f2.push(true);
    let f4 = f3.push(true);
    let f5 = f4.push(true);
    let f6 = f5.push(true);
    let f7 = f6.push(true);
    let f8 = f7.push(false);
    assert(f8 =~= frame::flag_bits());
    let s0 = s;
    let s1 = frame::deframe_step(s0, false).0;
    let s2 = frame::deframe_step(s1, true).0;
    let s3 = frame::deframe_step(s2, true).0;
    let s4 = frame::deframe_step(s3, true).0;
    let s5 = frame::deframe_step(s4, true).0;
    let s6 = frame::deframe_step(s5, true).0;
    let s7 = frame::deframe_step(s6, true).0;
    let s8 = frame::deframe_step(s7, false).0;
    lemma_deframe_push(s, f0, false);
    lemma_deframe_push(s, f1, true);
    lemma_deframe_push(s, f2, true);
    lemma_deframe_push(s, f3, true);
    lemma_deframe_push(s, f4, true);
    lemma_deframe_push(s, f5, true);
    lemma_deframe_push(s, f6, true);
    lemma_deframe_push(s, f7, false);
    lemma_shift_zero(s0.shift, s0.ones);
    lemma_shift_one(s1.shift, s1.ones);
    lemma_shift_one(s2.shift, s2.ones);
    lemma_shift_one(s3.shift, s3.ones);
    lemma_shift_one(s4.shift, s4.ones);
    lemma_shift_one(s5.shift, s5.ones);
    lemma_shift_one(s6.shift, s6.ones);
    assert(s7.data =~= s.data + flag_head());
    let h0 = s0.shift;
    let h1 = s1.shift;
    let h2 = s2.shift;
    let h3 = s3.shift;
    let h4 = s4.shift;
    let h5 = s5.shift;
    let h6 = s6.shift;
    let h7 = s7.shift;
    let h8 = s8.shift;
    assert(h8 == 0x7E) by (bit_vector)
        requires
            h1 == h0 >> 1 | 0u8,
            h2 == h1 >> 1 | 0x80u8,
            h3 == h2 >> 1 | 0x80u8,
            h4 == h3 >> 1 | 0x80u8,
            h5 == h4 >> 1 | 0x80u8,
            h6 == h5 >> 1 | 0x80u8,
            h7 == h6 >> 1 | 0x80u8,
            h8 == h7 >> 1 | 0u8,
    ;
    assert(frame::deframe(s, f7).1 =~= Seq::<Seq<bool>>::empty());
}

/// Ones at the end of the first `k` training bits.
spec fn training_run(k: int) -> u32 {
    if k > 0 && k % 2 == 0 {
        1
    } else {
        0
    }
}

proof fn lemma_training_unstuffed(k: int)
    requires
        0 <= k <= frame::TRAINING_BITS,
    ensures
        frame::stuffed(frame::training().take(k)) == frame::training().take(k),
        frame::stuff(frame::training().take(k)).1 == training_run(k),
    decreases k,
{
    if k > 0 {
        lemma_training_unstuffed(k - 1);
        assert(frame::training().take(k).drop_last() =~= frame::training().take(k - 1));
        assert(frame::stuffed(frame::training().take(k)) =~= frame::training().take(k));
    } else {
        assert(frame::stuffed(frame::training().take(k)) =~= frame::training().take(k));
    }
}

/// Outside a frame the training sequence changes nothing but the register.
proof fn lemma_hunting_training(k: int)
    requires
        0 <= k <= frame::TRAINING_BITS,
    ensures
        ({
            let (end, frames) = frame::deframe(frame::hunting(), frame::training().take(k));
            &&& !end.in_frame
            &&& frames == Seq::<Seq<bool>>::empty()
            &&& run_on_top(end.shift, training_run(k))
        }),
    decreases k,
{
    let t = frame::training().take(k);
    if k > 0 {
        lemma_hunting_training(k - 1);
        assert(t.drop_last() =~= frame::training().take(k - 1));
        let mid = frame::deframe(frame::hunting(), t.drop_last()).0;
        if t.last() {
            lemma_shift_one(mid.shift, 0);
        } else {
            lemma_shift_zero(mid.shift, training_run(k - 1));
        }
    } else {
        assert(0u8 & 0x80 == 0) by (bit_vector);
    }
}

/// A flag outside a frame completes none.
proof fn lemma_opening_flag(s: frame::DeframerState)
    requires
        !s.in_frame,
        run_on_top(s.shift, 1),
    ensures
        frame::deframe(s, frame::flag_bits()).0 == frame::opened(),
        frame::deframe(s, frame::flag_bits()).1 == Seq::<Seq<bool>>::empty(),
{
    law_flag_synchronises(s);
    lemma_flag_bits();
    let f0 = Seq::<bool>::empty();
    let f1 = f0.push(false);
    let f2 = f1.push(true);
    let f3 = f2.push(true);
    let f4 = f3.push(true);
    let f5 = f4.push(true);
    let f6 = f5.push(true);
    let f7 = f6.push(true);
    let f8 = f7.push(false);
    assert(f8 =~= frame::flag_bits());
    let s0 = s;
    let s1 = frame::deframe_step(s0, false).0;
    let s2 = frame::deframe_step(s1, true).0;
    let s3 = frame::deframe_step(s2, true).0;
    let s4 = frame::deframe_step(s3, true).0;
    let s5 = frame::deframe_step(s4, true).0;
    let s6 = frame::deframe_step(s5, true).0;
    let s7 = frame::deframe_step(s6, true).0;
    let s8 = frame::deframe_step(s7, false).0;
    lemma_deframe_push(s, f0, false);
    lemma_deframe_push(s, f1, true);
    lemma_deframe_push(s, f2, true);
    lemma_deframe_push(s, f3, true);
    lemma_deframe_push(s, f4, true);
    lemma_deframe_push(s, f5, true);
    lemma_deframe_push(s, f6, true);
    lemma_deframe_push(s, f7, false);
    lemma_shift_zero(s0.shift, 1);
    lemma_shift_one(s1.shift, 0);
    lemma_shift_one(s2.shift, 1);
    lemma_shift_one(s3.shift, 2);
    lemma_shift_one(s4.shift, 3);
    lemma_shift_one(s5.shift, 4);
    lemma_shift_one(s6.shift, 5);
    let h0 = s0.shift;
    let h1 = s1.shift;
    let h2 = s2.shift;
    let h3 = s3.shift;
    let h4 = s4.shift;
    let h5 = s5.shift;
    let h6 = s6.shift;
    let h7 = s7.shift;
    let h8 = s8.shift;
    assert(h8 == 0x7E) by (bit_vector)
        requires
            h1 == h0 >> 1 | 0u8,
            h2 == h1 >> 1 | 0x80u8,
            h3 == h2 >> 1 | 0x80u8,
            h4 == h3 >> 1 | 0x80u8,
            h5 == h4 >> 1 | 0x80u8,
            h6 == h5 >> 1 | 0x80u8,
            h7 == h6 >> 1 | 0x80u8,
            h8 == h7 >> 1 | 0u8,
    ;
}

/// Training and flag open a frame without completing one, both at the start of
/// reception and right behind another frame.
proof fn lemma_preamble(s: frame::DeframerState)
    requires
        s == frame::hunting() || s == frame::opened(),
    ensures
        frame::deframe(s, frame::training() + frame::flag_bits()).0 == frame::opened(),
        frame::deframe(s, frame::training() + frame::flag_bits()).1 == Seq::<Seq<bool>>::empty(),
{
    let t = frame::training();
    assert(t.take(24) =~= t);
    lemma_deframe_append(s, t, frame::flag_bits());
    if s == frame::hunting() {
        lemma_hunting_training(24);
        lemma_opening_flag(frame::deframe(s, t).0);
    } else {
        assert(0x7Eu8 & 0x80 == 0) by (bit_vector);
        lemma_training_unstuffed(24);
        lemma_deframe_stuffed(s, t);
        lemma_closing_flag(frame::deframe(s, t).0);
    }
    assert(frame::deframe(s, t + frame::flag_bits()).1 =~= Seq::<Seq<bool>>::empty());
}

proof fn lemma_byte_swap_twice(s: Seq<bool>)
    requires
        s.len() % 8 == 0,
    ensures
        frame::byte_swapped(frame::byte_swapped(s)) == s,
{
    assert(frame::byte_swapped(frame::byte_swapped(s)) =~= s);
}

/// A payload that one frame can carry: six bytes at least, and with check
/// sequence and flag no more than the longest frame.
pub open spec fn fits_frame(payload: Seq<bool>) -> bool {
    48 <= bits::padded(payload, 8).len() <= 1256
}

/// Data whose check sequence leaves the fixed remainder are accepted in front
/// of a flag.
proof fn lemma_accept_data(data: Seq<bool>, fcs: Seq<bool>, head: Seq<bool>)
    requires
        data.len() >= 48,
        data.len() % 8 == 0,
        fcs.len() == 16,
        head.len() == 7,
        frame::crc(data + fcs) == frame::CRC_GOOD,
    ensures
        frame::accept(data + fcs + head) == Some(frame::byte_swapped(data)),
{
    let end = data + fcs + head;
    assert(end.take(end.len() - 7) =~= data + fcs);
    assert(end.take(end.len() - 7 - 16) =~= data);
}

/// Checked data in front of a flag are accepted.
proof fn lemma_accept(payload: Seq<bool>)
    requires
        fits_frame(payload),
    ensures
        frame::checked(payload).len() == bits::padded(payload, 8).len() + 16,
        frame::accept(frame::checked(payload) + flag_head()) == Some(bits::padded(payload, 8)),
{
    let pad = bits::padded(payload, 8);
    let data = frame::byte_swapped(pad);
    let fcs = frame::lsb_bits(!frame::crc(data) as int, 16);
    bits::lemma_field_len(!frame::crc(data) as int, 16);
    assert(pad.len() % 8 == 0);
    law_crc_residue(data);
    lemma_accept_data(data, fcs, flag_head());
    lemma_byte_swap_twice(pad);
}

/// From the start of a frame on, data, check sequence and flag give exactly
/// the payload.
proof fn lemma_body(payload: Seq<bool>)
    requires
        fits_frame(payload),
    ensures
        ({
            let body = frame::stuffed(frame::checked(payload)) + frame::flag_bits();
            &&& frame::deframe(frame::opened(), body).0 == frame::opened()
            &&& frame::deframe(frame::opened(), body).1 == seq![bits::padded(payload, 8)]
        }),
{
    let s = frame::opened();
    let source = frame::checked(payload);
    lemma_accept(payload);
    assert(0x7Eu8 & 0x80 == 0) by (bit_vector);
    lemma_deframe_stuffed(s, source);
    let mid = frame::deframe(s, frame::stuffed(source)).0;
    assert(mid.data =~= source);
    lemma_closing_flag(mid);
    lemma_deframe_append(s, frame::stuffed(source), frame::flag_bits());
    assert(Seq::<Seq<bool>>::empty() + seq![bits::padded(payload, 8)] =~= seq![
        bits::padded(payload, 8),
    ]);
}

/// From the start of a frame on, stuffed data and a flag give what the checks
/// leave of the data.
pub proof fn lemma_received(data: Seq<bool>)
    requires
        data.len() <= 1273,
    ensures
        ({
            let frames = frame::deframe(
                frame::opened(),
                frame::stuffed(data) + seq![false, true, true, true, true, true, true, false],
            ).1;
            if data.len() >= 64 && data.len() % 8 == 0 && frame::crc(data) == frame::CRC_GOOD {
                frames == seq![frame::byte_swapped(data.take(data.len() - 16))]
            } else {
                frames == Seq::<Seq<bool>>::empty()
            }
        }),
{
    let s = frame::opened();
    lemma_flag_bits();
    assert(0x7Eu8 & 0x80 == 0) by (bit_vector);
    lemma_deframe_stuffed(s, data);
    let mid = frame::deframe(s, frame::stuffed(data)).0;
    assert(mid.data =~= data);
    lemma_closing_flag(mid);
    lemma_deframe_append(s, frame::stuffed(data), frame::flag_bits());
    let end = data + flag_head();
    assert(end.take(end.len() - 7) =~= data);
    if data.len() >= 16 {
        assert(end.take(end.len() - 7 - 16) =~= data.take(data.len() - 16));
    }
    let frames = frame::deframe(s, frame::stuffed(data) + frame::flag_bits()).1;
    match frame::accept(end) {
        Some(payload) => {
            assert(frames =~= seq![payload]);
        },
        None => {
            assert(frames =~= Seq::<Seq<bool>>::empty());
        },
    }
}

/// A 1 never completes a flag.
pub proof fn lemma_one_is_no_flag()
    ensures
        forall|shift: u8| #[trigger] (shift >> 1) | 0x80u8 != frame::FLAG,
{
    assert(forall|shift: u8| #[trigger] (shift >> 1) | 0x80u8 != 0x7Eu8) by (bit_vector);
}

/// What is framed is received: a frame gives exactly its payload, filled up to
/// whole bytes, both at the start of reception and right behind another frame.
pub proof fn law_frame_round_trip(s: frame::DeframerState, payload: Seq<bool>)
    requires
        fits_frame(payload),
        s == frame::hunting() || s == frame::opened(),
    ensures
        frame::deframe(s, frame::frame_bits(payload)).0 == frame::opened(),
        frame::deframe(s, frame::frame_bits(payload)).1 == seq![bits::padded(payload, 8)],
{
    let head = frame::training() + frame::flag_bits();
    let body = frame::stuffed(frame::checked(payload)) + frame::flag_bits();
    lemma_preamble(s);
    lemma_body(payload);
    lemma_deframe_append(s, head, body);
    assert(frame::frame_bits(payload) =~= head + body);
    assert(frame::deframe(s, frame::frame_bits(payload)).1 =~= seq![bits::padded(payload, 8)]);
}

/// Flag, stuffed data with check sequence, flag: a frame without its training
/// sequence.
pub open spec fn framed(payload: Seq<bool>) -> Seq<bool> {
    frame::flag_bits() + frame::stuffed(frame::checked(payload)) + frame::flag_bits()
}

/// Whatever was received before, noise or half a frame, the payload of a
/// complete frame is the last thing that its bits give.
pub proof fn law_frame_survives_noise(
    s: frame::DeframerState,
    noise: Seq<bool>,
    payload: Seq<bool>,
)
    requires
        fits_frame(payload),
    ensures
        frame::deframe(s, noise + framed(payload)).0 == frame::opened(),
        frame::deframe(s, noise + framed(payload)).1.len() > 0,
        frame::deframe(s, noise + framed(payload)).1.last() == bits::padded(payload, 8),
{
    let head = noise + frame::flag_bits();
    let body = frame::stuffed(frame::checked(payload)) + frame::flag_bits();
    lemma_deframe_append(s, noise, frame::flag_bits());
    law_flag_synchronises(frame::deframe(s, noise).0);
    lemma_body(payload);
    lemma_deframe_append(s, head, body);
    assert(noise + framed(payload) =~= head + body);
}

/// The bits of several frames, one behind the other.
pub open spec fn frames_bits(payloads: Seq<Seq<bool>>) -> Seq<bool>
    decreases payloads.len(),
{
    if payloads.len() == 0 {
        Seq::empty()
    } else {
        frames_bits(payloads.drop_last()) + frame::frame_bits(payloads.last())
    }
}

/// Every frame of a stream arrives, once and in order.
pub proof fn law_frames_arrive_in_order(payloads: Seq<Seq<bool>>)
    requires
        forall|i: int| 0 <= i < payloads.len() ==> fits_frame(#[trigger] payloads[i]),
    ensures
        frame::deframe(frame::hunting(), frames_bits(payloads)).1 == Seq::new(
            payloads.len(),
            |i: int| bits::padded(payloads[i], 8),
        ),
        frame::deframe(frame::hunting(), frames_bits(payloads)).0 == if payloads.len() == 0 {
            frame::hunting()
        } else {
            frame::opened()
        },
    decreases payloads.len(),
{
    let expected = Seq::new(payloads.len(), |i: int| bits::padded(payloads[i], 8));
    if payloads.len() > 0 {
        let head = payloads.drop_last();
        assert(fits_frame(payloads.last()));
        assert forall|i: int| 0 <= i < head.len() implies fits_frame(#[trigger] head[i]) by {
            assert(head[i] == payloads[i]);
        }
        law_frames_arrive_in_order(head);
        let mid = frame::deframe(frame::hunting(), frames_bits(head)).0;
        law_frame_round_trip(mid, payloads.last());
        lemma_deframe_append(
            frame::hunting(),
            frames_bits(head),
            frame::frame_bits(payloads.last()),
        );
    }
    assert(frame::deframe(frame::hunting(), frames_bits(payloads)).1 =~= expected);
}

/// The bits behind the levels of a burst are those of its frame and four ones,
/// whatever the level was before, except for the first training bit.
proof fn lemma_burst_bits(before: bool, payload: Seq<bool>)
    ensures
        frame::level_bits(false, super::burst_levels(payload)) == frame::frame_bits(payload)
            + seq![true, true, true, true],
        frame::level_bits(before, super::burst_levels(payload)).skip(1) == frame::level_bits(
            false,
            super::burst_levels(payload),
        ).skip(1),
{
    let f = frame::frame_bits(payload);
    let body = frame::levels(f);
    law_nrzi_round_trip(f);
    assert(frame::level_bits(false, body) == f);
    assert(body.len() == f.len());
    let b = frame::level_bits(false, super::burst_levels(payload));
    assert forall|i: int| 0 <= i < b.len() implies #[trigger] b[i] == (f + seq![
        true,
        true,
        true,
        true,
    ])[i] by {
        if i < f.len() {
            assert(b[i] == frame::level_bits(false, body)[i]);
        }
    }
    assert(b =~= f + seq![true, true, true, true]);
    assert(frame::level_bits(before, super::burst_levels(payload)).skip(1) =~= b.skip(1));
}

/// Four ones right behind a flag complete no frame.
proof fn lemma_tail(s: frame::DeframerState)
    requires
        s == frame::opened(),
    ensures
        frame::deframe(s, seq![true, true, true, true]).1 == Seq::<Seq<bool>>::empty(),
{
    let f0 = Seq::<bool>::empty();
    let f1 = f0.push(true);
    let f2 = f1.push(true);
    let f3 = f2.push(true);
    let f4 = f3.push(true);
    assert(f4 =~= seq![true, true, true, true]);
    assert(0x7Eu8 & 0x80 == 0) by (bit_vector);
    let s1 = frame::deframe_step(s, true).0;
    let s2 = frame::deframe_step(s1, true).0;
    let s3 = frame::deframe_step(s2, true).0;
    lemma_deframe_push(s, f0, true);
    lemma_deframe_push(s, f1, true);
    lemma_deframe_push(s, f2, true);
    lemma_deframe_push(s, f3, true);
    lemma_shift_one(s.shift, 0);
    lemma_shift_one(s1.shift, 1);
    lemma_shift_one(s2.shift, 2);
    lemma_shift_one(s3.shift, 3);
}

/// It does not matter in which blocks levels arrive: two blocks, one after the
/// other, give the frames that they give as one.
pub proof fn law_blocks_do_not_matter(
    s: frame::DeframerState,
    before: bool,
    a: Seq<bool>,
    b: Seq<bool>,
)
    ensures
        ({
            let between = if a.len() > 0 {
                a.last()
            } else {
                before
            };
            let (mid, first) = frame::deframe(s, frame::level_bits(before, a));
            let (end, second) = frame::deframe(mid, frame::level_bits(between, b));
            &&& frame::deframe(s, frame::level_bits(before, a + b)).0 == end
            &&& frame::deframe(s, frame::level_bits(before, a + b)).1 == first + second
        }),
{
    let between = if a.len() > 0 {
        a.last()
    } else {
        before
    };
    let first = frame::level_bits(before, a);
    let second = frame::level_bits(between, b);
    lemma_deframe_append(s, first, second);
    assert(frame::level_bits(before, a + b) =~= first + second);
}

/// What is sent is received: the levels of a burst give a receiver that has
/// just started exactly the payload.
pub proof fn law_burst_is_received(payload: Seq<bool>)
    requires
        fits_frame(payload),
    ensures
        frame::deframe(
            frame::hunting(),
            frame::level_bits(false, super::burst_levels(payload)),
        ).1 == seq![bits::padded(payload, 8)],
{
    let s = frame::hunting();
    lemma_burst_bits(false, payload);
    law_frame_round_trip(s, payload);
    lemma_deframe_append(s, frame::frame_bits(payload), seq![true, true, true, true]);
    lemma_tail(frame::opened());
    assert(seq![bits::padded(payload, 8)] + Seq::<Seq<bool>>::empty() =~= seq![
        bits::padded(payload, 8),
    ]);
}

/// A burst is received whatever was on the channel before: its payload is the
/// last frame that its levels complete.
pub proof fn law_burst_survives_noise(
    s: frame::DeframerState,
    before: bool,
    payload: Seq<bool>,
)
    requires
        fits_frame(payload),
    ensures
        frame::deframe(s, frame::level_bits(before, super::burst_levels(payload))).1.len() > 0,
        frame::deframe(s, frame::level_bits(before, super::burst_levels(payload))).1.last()
            == bits::padded(payload, 8),
{
    let b = frame::level_bits(before, super::burst_levels(payload));
    let tail = seq![true, true, true, true];
    let clean = frame::frame_bits(payload) + tail;
    lemma_burst_bits(before, payload);
    let noise = b.take(24);
    assert(frame::frame_bits(payload) =~= frame::training() + framed(payload));
    assert(b.len() == clean.len());
    assert forall|i: int| 24 <= i < b.len() implies b[i] == clean[i] by {
        assert(b.skip(1)[i - 1] == clean.skip(1)[i - 1]);
    }
    assert(b =~= (noise + framed(payload)) + tail);
    law_frame_survives_noise(s, noise, payload);
    lemma_deframe_append(s, noise + framed(payload), tail);
    lemma_tail(frame::opened());
    let frames = frame::deframe(s, noise + framed(payload)).1;
    assert(frames + Seq::<Seq<bool>>::empty() =~= frames);
}

/// Stuffed data of any length: a frame stays open while it is within its limit.
proof fn lemma_deframe_long(source: Seq<bool>)
    ensures
        ({
            let (end, frames) = frame::deframe(frame::opened(), frame::stuffed(source));
            &&& frames == Seq::<Seq<bool>>::empty()
            &&& end.in_frame <==> source.len() <= 1280
            &&& end.in_frame ==> end.data == source && end.ones == frame::stuff(source).1
            &&& frame::stuff(source).1 <= 4
            &&& run_on_top(end.shift, frame::stuff(source).1 as u32)
        }),
    decreases source.len(),
{
    let s = frame::opened();
    if source.len() == 0 {
        assert(0x7Eu8 & 0x80 == 0) by (bit_vector);
        assert(s.data =~= source);
    } else {
        let head = source.drop_last();
        lemma_deframe_long(head);
        let (mid, frames) = frame::deframe(s, frame::stuffed(head));
        let ones = frame::stuff(head).1 as u32;
        assert(source =~= head.push(source.last()));
        lemma_deframe_push(s, frame::stuffed(head), source.last());
        if !source.last() {
            lemma_shift_zero(mid.shift, ones);
        } else {
            lemma_shift_one(mid.shift, ones);
            if ones == 4 {
                let one = frame::deframe_step(mid, true).0;
                lemma_deframe_push(s, frame::stuffed(head).push(true), false);
                lemma_shift_zero(one.shift, 5);
            }
        }
    }
}

/// A flag behind a frame that is over its limit completes nothing.
proof fn lemma_late_flag(s: frame::DeframerState, ones: u32)
    requires
        ones <= 4,
        run_on_top(s.shift, ones),
        s.in_frame ==> s.ones == ones && s.data.len() + 7 > 1280,
    ensures
        frame::deframe(s, frame::flag_bits()).1 == Seq::<Seq<bool>>::empty(),
{
    lemma_flag_bits();
    let f0 = Seq::<bool>::empty();
    let f1 = f0.push(false);
    let f2 = f1.push(true);
    let f3 = f2.push(true);
    let f4 = f3.push(true);
    let f5 = f4.push(true);
    let f6 = f5.push(true);
    let f7 = f6.push(true);
    let f8 = f7.push(false);
    assert(f8 =~= frame::flag_bits());
    let s1 = frame::deframe_step(s, false).0;
    let s2 = frame::deframe_step(s1, true).0;
    let s3 = frame::deframe_step(s2, true).0;
    let s4 = frame::deframe_step(s3, true).0;
    let s5 = frame::deframe_step(s4, true).0;
    let s6 = frame::deframe_step(s5, true).0;
    let s7 = frame::deframe_step(s6, true).0;
    lemma_deframe_push(s, f0, false);
    lemma_deframe_push(s, f1, true);
    lemma_deframe_push(s, f2, true);
    lemma_deframe_push(s, f3, true);
    lemma_deframe_push(s, f4, true);
    lemma_deframe_push(s, f5, true);
    lemma_deframe_push(s, f6, true);
    lemma_deframe_push(s, f7, false);
    lemma_shift_zero(s.shift, ones);
    lemma_shift_one(s1.shift, 0);
    lemma_shift_one(s2.shift, 1);
    lemma_shift_one(s3.shift, 2);
    lemma_shift_one(s4.shift, 3);
    lemma_shift_one(s5.shift, 4);
    lemma_shift_one(s6.shift, 5);
    assert(!s7.in_frame);
}

/// A frame that is longer than five slots of 256 bits, the first seven bits of
/// its closing flag counted, is dropped.
pub proof fn law_long_frame_is_dropped(data: Seq<bool>)
    requires
        data.len() + 7 > 5 * 256,
    ensures
        frame::deframe(
            frame::opened(),
            frame::stuffed(data) + seq![false, true, true, true, true, true, true, false],
        ).1.len() == 0,
{
    let s = frame::opened();
    lemma_flag_bits();
    lemma_deframe_long(data);
    let mid = frame::deframe(s, frame::stuffed(data)).0;
    lemma_late_flag(mid, frame::stuff(data).1 as u32);
    lemma_deframe_append(s, frame::stuffed(data), frame::flag_bits());
}

} // verus!
