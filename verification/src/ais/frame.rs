//! Link layer: HDLC frames with CRC-16, bit stuffing and NRZI.
//!
//! On the air a frame is a training sequence (24 bits `0101..`), a flag `0x7E`,
//! payload and check sequence with bit stuffing, and a flag `0x7E`. Every byte
//! leaves with its least significant bit first. NRZI: a 0 changes the level, a
//! 1 keeps it.

use super::bits;
use vstd::arithmetic::power2::*;
use vstd::bits::*;
use vstd::prelude::*;

verus! {

pub const FLAG: u8 = 0x7E;

pub const TRAINING_BITS: usize = 24;

/// The CRC over data and check sequence always leaves this remainder when the
/// transmission was free of errors.
pub const CRC_GOOD: u16 = 0xF0B8;

/// Longest frame: five slots of 256 bits.
pub const MAX_FRAME_BITS: usize = 1280;

/// One bit through the CRC-16/X-25 register.
pub open spec fn crc_step(crc: u16, bit: bool) -> u16 {
    if (crc & 1 == 1) != bit {
        (crc >> 1) ^ 0x8408
    } else {
        crc >> 1
    }
}

/// The register after `bits`, which start from `start`.
pub open spec fn crc_from(start: u16, bits: Seq<bool>) -> u16
    decreases bits.len(),
{
    if bits.len() == 0 {
        start
    } else {
        crc_step(crc_from(start, bits.drop_last()), bits.last())
    }
}

/// CRC-16/X-25 over bits in the order of transmission.
pub open spec fn crc(bits: Seq<bool>) -> u16 {
    crc_from(0xFFFF, bits)
}

/// The low `n` bits of `v`, least significant first.
pub open spec fn lsb_bits(v: int, n: nat) -> Seq<bool> {
    bits::field(v, n).reverse()
}

/// Every group of eight bits turned around: payload order to transmission
/// order and back.
pub open spec fn byte_swapped(s: Seq<bool>) -> Seq<bool> {
    Seq::new(s.len(), |i: int| s[8 * (i / 8) + 7 - i % 8])
}

/// `s` with a 0 after every five consecutive ones, and how many ones stand at
/// its end since the last 0.
pub open spec fn stuff(s: Seq<bool>) -> (Seq<bool>, nat)
    decreases s.len(),
{
    if s.len() == 0 {
        (Seq::empty(), 0)
    } else {
        let (out, ones) = stuff(s.drop_last());
        if !s.last() {
            (out.push(false), 0)
        } else if ones == 4 {
            (out.push(true).push(false), 0)
        } else {
            (out.push(true), ones + 1)
        }
    }
}

/// `s` with a 0 after every five consecutive ones.
pub open spec fn stuffed(s: Seq<bool>) -> Seq<bool> {
    stuff(s).0
}

pub open spec fn training() -> Seq<bool> {
    Seq::new(TRAINING_BITS as nat, |i: int| i % 2 == 1)
}

pub open spec fn flag_bits() -> Seq<bool> {
    lsb_bits(FLAG as int, 8)
}

/// Payload in transmission order, followed by its check sequence.
pub open spec fn checked(payload: Seq<bool>) -> Seq<bool> {
    let data = byte_swapped(bits::padded(payload, 8));
    data + lsb_bits(!crc(data) as int, 16)
}

/// The bits of a frame before NRZI.
pub open spec fn frame_bits(payload: Seq<bool>) -> Seq<bool> {
    training() + flag_bits() + stuffed(checked(payload)) + flag_bits()
}

/// CRC-16/X-25 over bits in the order of transmission.
pub fn crc16(bits: &[bool]) -> (r: u16)
    ensures
        r == crc(bits@),
{
    let mut r: u16 = 0xFFFF;
    let mut i: usize = 0;
    assert(bits@.take(0) =~= Seq::<bool>::empty());
    while i < bits.len()
        invariant
            i <= bits@.len(),
            r == crc(bits@.take(i as int)),
        decreases bits@.len() - i,
    {
        assert(bits@.take(i + 1).drop_last() =~= bits@.take(i as int));
        let feedback: bool = (r & 1 == 1) != bits[i];
        r = r >> 1;
        if feedback {
            r = r ^ 0x8408;
        }
        i += 1;
    }
    assert(bits@.take(i as int) =~= bits@);
    r
}

/// Bit `i` of a field counts `2^i`.
pub proof fn lemma_lsb_bit(v: int, n: nat, i: int)
    requires
        0 <= v,
        0 <= i < n,
    ensures
        lsb_bits(v, n).len() == n,
        lsb_bits(v, n)[i] <==> (v / (pow2(i as nat) as int)) % 2 == 1,
    decreases n,
{
    bits::lemma_field_len(v, n);
    lemma2_to64();
    if i > 0 {
        bits::lemma_field_len(v / 2, (n - 1) as nat);
        lemma_lsb_bit(v / 2, (n - 1) as nat, i - 1);
        lemma_pow2_unfold(i as nat);
        lemma_pow2_pos((i - 1) as nat);
        vstd::arithmetic::div_mod::lemma_div_denominator(v, 2, pow2((i - 1) as nat) as int);
        assert(v / (pow2(i as nat) as int) == (v / 2) / (pow2((i - 1) as nat) as int));
        assert(lsb_bits(v, n)[i] == bits::field(v / 2, (n - 1) as nat)[n - 1 - i]);
    } else {
        assert(v / (pow2(0) as int) == v);
        assert(lsb_bits(v, n)[0] == bits::field(v, n).last());
    }
}

/// The low `n` bits of a word, least significant first.
fn push_lsb(out: &mut Vec<bool>, v: u16, n: usize)
    requires
        n <= 16,
    ensures
        final(out)@ == old(out)@ + lsb_bits(v as int, n as nat),
{
    let mut i: usize = 0;
    let ghost before = out@;
    proof {
        bits::lemma_field_len(v as int, n as nat);
        assert(lsb_bits(v as int, n as nat).take(0) =~= Seq::<bool>::empty());
        assert(before + Seq::<bool>::empty() =~= before);
    }
    while i < n
        invariant
            i <= n <= 16,
            lsb_bits(v as int, n as nat).len() == n,
            out@ == before + lsb_bits(v as int, n as nat).take(i as int),
        decreases n - i,
    {
        proof {
            lemma_lsb_bit(v as int, n as nat, i as int);
            lemma_u16_shr_is_div(v, i as u16);
            let x = v >> (i as u16);
            assert(x & 1 == x % 2) by (bit_vector);
            assert(out@.push(lsb_bits(v as int, n as nat)[i as int]) =~= before + lsb_bits(
                v as int,
                n as nat,
            ).take(i + 1));
        }
        out.push((v >> i) & 1 == 1);
        i += 1;
    }
    assert(lsb_bits(v as int, n as nat).take(i as int) =~= lsb_bits(v as int, n as nat));
}

/// The bits of a byte, least significant first.
pub fn lsb_first(byte: u8) -> (r: Vec<bool>)
    ensures
        r@ == lsb_bits(byte as int, 8),
{
    let mut r: Vec<bool> = Vec::new();
    push_lsb(&mut r, byte as u16, 8);
    assert(r@ =~= lsb_bits(byte as int, 8));
    r
}

/// The payload as whole bytes, least significant bit first.
fn air_order(payload: &[bool]) -> (data: Vec<bool>)
    ensures
        data@ == byte_swapped(bits::padded(payload@, 8)),
{
    let bytes: Vec<u8> = bits::to_bytes(payload);
    let ghost pad = bits::padded(payload@, 8);
    let mut data: Vec<bool> = Vec::new();
    let mut k: usize = 0;
    while k < bytes.len()
        invariant
            k <= bytes@.len(),
            pad.len() == 8 * bytes@.len(),
            forall|k: int|
                0 <= k < bytes@.len() ==> #[trigger] bytes@[k] == bits::value(
                    pad.subrange(8 * k, 8 * k + 8),
                ),
            data@ =~= byte_swapped(pad).take(8 * k),
        decreases bytes@.len() - k,
    {
        let byte: u8 = bytes[k];
        proof {
            let group = pad.subrange(8 * k, 8 * k + 8);
            bits::lemma_field_of_value(group);
            assert(lsb_bits(byte as int, 8) =~= group.reverse());
            assert(byte_swapped(pad).take(8 * (k + 1)) =~= byte_swapped(pad).take(8 * k)
                + group.reverse());
        }
        push_lsb(&mut data, byte as u16, 8);
        k += 1;
    }
    assert(byte_swapped(pad).take(8 * k) =~= byte_swapped(pad));
    data
}

/// The bits of a frame before NRZI; the payload is filled up to whole bytes.
pub fn build(payload: &[bool]) -> (out: Vec<bool>)
    ensures
        out@ == frame_bits(payload@),
{
    let mut source: Vec<bool> = air_order(payload);
    let fcs: u16 = !crc16(&source);
    push_lsb(&mut source, fcs, 16);
    assert(source@ == checked(payload@));

    let mut out: Vec<bool> = Vec::new();
    let mut i: usize = 0;
    while i < TRAINING_BITS
        invariant
            i <= TRAINING_BITS,
            out@ =~= training().take(i as int),
        decreases TRAINING_BITS - i,
    {
        out.push(i % 2 == 1);
        i += 1;
    }
    push_lsb(&mut out, FLAG as u16, 8);
    let ghost head = out@;
    assert(head =~= training() + flag_bits());

    let mut ones: usize = 0;
    let mut k: usize = 0;
    assert(source@.take(0) =~= Seq::<bool>::empty());
    while k < source.len()
        invariant
            k <= source@.len(),
            ones <= 4,
            out@ =~= head + stuffed(source@.take(k as int)),
            ones == stuff(source@.take(k as int)).1,
        decreases source@.len() - k,
    {
        assert(source@.take(k + 1).drop_last() =~= source@.take(k as int));
        let b: bool = source[k];
        out.push(b);
        if b {
            ones += 1;
        } else {
            ones = 0;
        }
        if ones == 5 {
            out.push(false);
            ones = 0;
        }
        k += 1;
    }
    assert(source@.take(k as int) =~= source@);
    push_lsb(&mut out, FLAG as u16, 8);
    assert(out@ =~= frame_bits(payload@));
    out
}

/// NRZI levels: a 0 changes the level, a 1 keeps it; it starts low.
pub open spec fn levels(bits: Seq<bool>) -> Seq<bool>
    decreases bits.len(),
{
    if bits.len() == 0 {
        Seq::empty()
    } else {
        let head = levels(bits.drop_last());
        let before = head.len() > 0 && head.last();
        head.push(before == bits.last())
    }
}

/// The bits behind a sequence of levels, which follow the level `before`.
pub open spec fn level_bits(before: bool, levels: Seq<bool>) -> Seq<bool> {
    Seq::new(
        levels.len(),
        |i: int|
            levels[i] == if i == 0 {
                before
            } else {
                levels[i - 1]
            },
    )
}

/// NRZI encoding to levels (`true` is the positive frequency deviation).
pub fn nrzi(bits: &[bool]) -> (r: Vec<bool>)
    ensures
        r@ == levels(bits@),
{
    let mut level: bool = false;
    let mut r: Vec<bool> = Vec::new();
    let mut i: usize = 0;
    assert(bits@.take(0) =~= Seq::<bool>::empty());
    while i < bits.len()
        invariant
            i <= bits@.len(),
            r@ == levels(bits@.take(i as int)),
            level == (r@.len() > 0 && r@.last()),
        decreases bits@.len() - i,
    {
        assert(bits@.take(i + 1).drop_last() =~= bits@.take(i as int));
        if !bits[i] {
            level = !level;
        }
        r.push(level);
        i += 1;
    }
    assert(bits@.take(i as int) =~= bits@);
    r
}

/// What a [`Deframer`] knows of the bits so far.
pub struct DeframerState {
    /// The last eight bits, the newest on top.
    pub shift: u8,
    /// A flag has been seen and no abort since.
    pub in_frame: bool,
    /// Ones at the end of the bits so far.
    pub ones: u32,
    /// Bits since the flag without stuffing.
    pub data: Seq<bool>,
}

/// Payload of a frame whose `data`, up to the closing flag, passes the checks.
/// The first seven bits of the flag have gone into the data already.
pub open spec fn accept(data: Seq<bool>) -> Option<Seq<bool>> {
    let len = data.len() - 7;
    if len >= 64 && len % 8 == 0 && crc(data.take(len)) == CRC_GOOD {
        Some(byte_swapped(data.take(len - 16)))
    } else {
        None
    }
}

/// One bit through the deframer, and the payload of the frame it completes.
pub open spec fn deframe_step(s: DeframerState, bit: bool) -> (
    DeframerState,
    Option<Seq<bool>>,
) {
    let shift = s.shift >> 1 | if bit {
        0x80u8
    } else {
        0u8
    };
    if shift == FLAG {
        (
            DeframerState { shift, in_frame: true, ones: 0, data: Seq::empty() },
            if s.in_frame {
                accept(s.data)
            } else {
                None
            },
        )
    } else if !s.in_frame {
        (DeframerState { shift, ..s }, None)
    } else if bit && s.ones >= 6 {
        (DeframerState { shift, in_frame: false, ones: (s.ones + 1) as u32, ..s }, None)
    } else {
        let ones = if bit {
            (s.ones + 1) as u32
        } else {
            0
        };
        let data = if !bit && s.ones == 5 {
            s.data
        } else {
            s.data.push(bit)
        };
        (DeframerState { shift, in_frame: data.len() <= MAX_FRAME_BITS, ones, data }, None)
    }
}

/// A stream of bits through the deframer, and the payloads of all frames that
/// it completes.
pub open spec fn deframe(s: DeframerState, bits: Seq<bool>) -> (DeframerState, Seq<Seq<bool>>)
    decreases bits.len(),
{
    if bits.len() == 0 {
        (s, Seq::empty())
    } else {
        let (mid, frames) = deframe(s, bits.drop_last());
        let (end, frame) = deframe_step(mid, bits.last());
        (
            end,
            match frame {
                Some(payload) => frames.push(payload),
                None => frames,
            },
        )
    }
}

/// The state before the first bit.
pub open spec fn hunting() -> DeframerState {
    DeframerState { shift: 0, in_frame: false, ones: 0, data: Seq::empty() }
}

/// The state right after a flag.
pub open spec fn opened() -> DeframerState {
    DeframerState { shift: FLAG, in_frame: true, ones: 0, data: Seq::empty() }
}

/// Finds frames in a stream of decoded bits and checks their CRC.
pub struct Deframer {
    shift: u8,
    in_frame: bool,
    ones: u32,
    data: Vec<bool>,
}

impl View for Deframer {
    type V = DeframerState;

    closed spec fn view(&self) -> DeframerState {
        DeframerState {
            shift: self.shift,
            in_frame: self.in_frame,
            ones: self.ones,
            data: self.data@,
        }
    }
}

impl Default for Deframer {
    fn default() -> (d: Self)
        ensures
            d.wf(),
            d@ == hunting(),
    {
        let d = Deframer { shift: 0, in_frame: false, ones: 0, data: Vec::new() };
        assert(d@.data =~= hunting().data);
        d
    }
}

impl Deframer {
    /// No run of ones in a frame is longer than a flag's, and a frame is no
    /// longer than its limit.
    pub open spec fn wf(&self) -> bool {
        &&& self@.ones <= 7
        &&& self@.in_frame ==> self@.ones <= 6 && self@.data.len() <= MAX_FRAME_BITS
    }

    /// Takes a bit after NRZI decoding. Gives the payload as soon as a
    /// complete frame with a valid CRC ends.
    pub fn push(&mut self, bit: bool) -> (r: Option<Vec<bool>>)
        requires
            old(self).wf(),
        ensures
            final(self).wf(),
            final(self)@ == deframe_step(old(self)@, bit).0,
            r is Some <==> deframe_step(old(self)@, bit).1 is Some,
            r matches Some(payload) ==> deframe_step(old(self)@, bit).1 == Some(payload@),
    {
        let top: u8 = if bit {
            0x80
        } else {
            0
        };
        self.shift = self.shift >> 1 | top;
        if self.shift == FLAG {
            let frame = if self.in_frame {
                self.finish()
            } else {
                None
            };
            // The closing flag may open the next frame.
            self.in_frame = true;
            self.ones = 0;
            self.data.clear();
            assert(self@.data =~= Seq::<bool>::empty());
            return frame;
        }
        if !self.in_frame {
            return None;
        }
        if bit {
            self.ones += 1;
            if self.ones > 6 {
                self.in_frame = false;  // abort sequence or noise
                return None;
            }
            self.data.push(true);
        } else if self.ones == 5 {
            self.ones = 0;  // stuffing
        } else {
            self.ones = 0;
            self.data.push(false);
        }
        if self.data.len() > MAX_FRAME_BITS {
            self.in_frame = false;
        }
        None
    }

    /// Payload of the frame that a flag has just closed, if it is valid.
    fn finish(&self) -> (r: Option<Vec<bool>>)
        requires
            self@.data.len() <= MAX_FRAME_BITS,
        ensures
            r is Some <==> accept(self@.data) is Some,
            r matches Some(payload) ==> accept(self@.data) == Some(payload@),
    {
        if self.data.len() < 71 {
            return None;
        }
        let len: usize = self.data.len() - 7;
        let ghost body = self.data@.take(len as int);
        let mut body_bits: Vec<bool> = Vec::new();
        let mut i: usize = 0;
        while i < len
            invariant
                i <= len <= self.data@.len(),
                body_bits@ =~= self.data@.take(i as int),
            decreases len - i,
        {
            body_bits.push(self.data[i]);
            i += 1;
        }
        if len % 8 != 0 || crc16(&body_bits) != CRC_GOOD {
            return None;
        }
        // Bytes came least significant bit first, the payload is packed the
        // other way round.
        let mut payload: Vec<bool> = Vec::new();
        let mut k: usize = 0;
        let ghost sent = self.data@.take(len - 16);
        while k < len - 16
            invariant
                k <= len - 16,
                len % 8 == 0,
                len >= 64,
                body_bits@.len() == len,
                sent == body_bits@.take(len - 16),
                payload@ =~= byte_swapped(sent).take(k as int),
            decreases len - k,
        {
            payload.push(body_bits[8 * (k / 8) + 7 - k % 8]);
            k += 1;
        }
        assert(payload@ =~= byte_swapped(sent));
        Some(payload)
    }
}

} // verus!
