//! From a received frame to what is stored and sent on.

use crate::ais::bits;
use crate::ais::demod::ReceivedFrame;
use crate::ais::message;
use crate::ais::message::AisMessage;
use crate::ais::nmea;
use crate::store;
use crate::store::MessageLog;
use crate::text;
use vstd::arithmetic::power2::*;
use vstd::prelude::*;

verus! {

/// A frame, read and written as NMEA.
pub struct Handled {
    pub log: MessageLog,
    /// The message, if its type is evaluated.
    pub message: Option<AisMessage>,
    /// Links the sentences of the next message that needs several.
    pub seq_id: u8,
}

/// View of an optional message.
pub open spec fn message_view(m: Option<AisMessage>) -> Option<message::MessageView> {
    match m {
        Some(x) => Some(x@),
        None => None,
    }
}

/// The message in a payload, if it is one that is evaluated.
pub open spec fn readable(payload: Seq<bool>) -> Option<message::MessageView> {
    match message::decoded(payload) {
        Ok(m) => Some(m),
        Err(_) => None,
    }
}

proof fn lemma_decoded_has_size(b: Seq<bool>)
    ensures
        message::decoded(b) matches Ok(m) ==> store::has_size(m) && m.mmsi() == message::at(
            b,
            8,
            30,
        ) as u32,
{
    match message::decoded(b) {
        Ok(m) => {
            if b.len() >= 422 {
                lemma2_to64();
                bits::lemma_value_bound(b.subrange(240, 249));
                bits::lemma_value_bound(b.subrange(249, 258));
                bits::lemma_value_bound(b.subrange(258, 264));
                bits::lemma_value_bound(b.subrange(264, 270));
            }
        },
        Err(_) => {},
    }
}

/// Reads a frame and writes it as NMEA. `None` if it is too short to hold a
/// ship's number.
pub fn handle(frame: &ReceivedFrame, seq_id: u8, ts_ms: i64) -> (r: Option<Handled>)
    requires
        seq_id < u8::MAX,
    ensures
        r is Some <==> frame.payload@.len() >= 38,
        r matches Some(h) ==> {
            let letter = match frame.channel {
                crate::ais::Channel::A => 'A',
                crate::ais::Channel::B => 'B',
            };
            &&& h.log.ts_ms == ts_ms
            &&& h.log.channel == letter
            &&& h.log.mmsi == message::at(frame.payload@, 8, 30)
            &&& h.log.msg_type == message::at(frame.payload@, 0, 6)
            &&& h.log.nmea@.len() == nmea::part_count(frame.payload@)
            &&& forall|i: int|
                0 <= i < h.log.nmea@.len() ==> (#[trigger] h.log.nmea@[i])@ == nmea::sentence(
                    frame.payload@,
                    letter,
                    seq_id,
                    i,
                )
            &&& message_view(h.message) == readable(frame.payload@)
            &&& h.message matches Some(m) ==> m@.mmsi() == h.log.mmsi && store::has_size(m@)
            &&& h.seq_id == (if nmea::part_count(frame.payload@) > 1 {
                (seq_id + 1) % 10
            } else {
                seq_id as int
            })
        },
{
    let ghost b = frame.payload@;
    let mmsi: u32 = match message::peek_mmsi(&frame.payload) {
        Some(m) => m,
        None => {
            return None;
        },
    };
    proof {
        bits::lemma_value_bound(b.subrange(8, 38));
        bits::lemma_value_bound(b.subrange(0, 6));
        lemma2_to64();
        lemma_decoded_has_size(b);
    }
    let decoded: Option<AisMessage> = match AisMessage::decode(&frame.payload) {
        Ok(m) => Some(m),
        Err(_) => None,
    };
    let letter: char = frame.channel.letter();
    let nmea: Vec<String> = nmea::sentences(&frame.payload, letter, seq_id);
    let next: u8 = if nmea.len() > 1 {
        (seq_id + 1) % 10
    } else {
        seq_id
    };
    let msg_type: u8 = first_six(&frame.payload);
    Some(
        Handled {
            log: MessageLog { ts_ms, channel: letter, mmsi, msg_type, nmea },
            message: decoded,
            seq_id: next,
        },
    )
}

/// Type of the message in a payload: its first six bits.
fn first_six(payload: &[bool]) -> (r: u8)
    requires
        payload@.len() >= 6,
    ensures
        r == message::at(payload@, 0, 6),
{
    let ghost front = payload@.subrange(0, 6);
    let mut acc: u8 = 0;
    let mut i: usize = 0;
    proof {
        lemma2_to64();
        assert(front.take(0) =~= Seq::<bool>::empty());
    }
    while i < 6
        invariant
            i <= 6 <= payload@.len(),
            front == payload@.subrange(0, 6),
            acc == bits::value(front.take(i as int)),
            acc < pow2(i as nat),
        decreases 6 - i,
    {
        let b: u8 = if payload[i] {
            1
        } else {
            0
        };
        assert(front.take(i + 1).drop_last() =~= front.take(i as int));
        proof {
            lemma2_to64();
            bits::lemma_value_bound(front.take(i + 1));
            if i < 5 {
                lemma_pow2_strictly_increases(i as nat, 5);
            }
        }
        acc = 2 * acc + b;
        i += 1;
    }
    assert(front.take(6) =~= front);
    acc
}

/// The sentences as they are sent to other programs, each with its line end.
pub fn datagrams(log: &MessageLog) -> (r: Vec<String>)
    ensures
        r@.len() == log.nmea@.len(),
        forall|i: int|
            0 <= i < r@.len() ==> (#[trigger] r@[i])@ == log.nmea@[i]@ + seq!['\r', '\n'],
{
    let mut r: Vec<String> = Vec::new();
    let mut i: usize = 0;
    while i < log.nmea.len()
        invariant
            i <= log.nmea@.len(),
            r@.len() == i,
            forall|k: int|
                0 <= k < i ==> (#[trigger] r@[k])@ == log.nmea@[k]@ + seq!['\r', '\n'],
        decreases log.nmea@.len() - i,
    {
        let mut line: String = text::copied(&log.nmea[i]);
        line.push('\r');
        line.push('\n');
        assert(line@ =~= log.nmea@[i as int]@ + seq!['\r', '\n']);
        r.push(line);
        i += 1;
    }
    r
}

/// Keeps the acquisition in step with real time.
#[derive(Clone, Copy, Debug, PartialEq, Eq, Structural)]
pub struct Pacer {
    /// When the next frame is due, in nanoseconds.
    pub next: u64,
    /// The warning that the processing is too slow was given.
    pub warned: bool,
}

/// What to do after a frame.
#[derive(Clone, Copy, Debug, PartialEq, Eq, Structural)]
pub struct Pace {
    /// Nanoseconds to wait.
    pub wait: u64,
    /// Warn that the processing is slower than real time.
    pub warn: bool,
}

impl Pacer {
    /// A frame was done at `now`, and the next one is due after `period`. If
    /// that is already over, time starts anew, and the first time a warning is
    /// due.
    pub fn frame_done(&mut self, now: u64, period: u64) -> (r: Pace)
        requires
            old(self).next + period <= u64::MAX,
        ensures
            ({
                let due = old(self).next + period;
                &&& due > now ==> {
                    &&& r == (Pace { wait: (due - now) as u64, warn: false })
                    &&& final(self).next == due
                    &&& final(self).warned == old(self).warned
                }
                &&& due <= now ==> {
                    &&& r == (Pace { wait: 0, warn: !old(self).warned })
                    &&& final(self).next == now
                    &&& final(self).warned
                }
            }),
    {
        self.next = self.next + period;
        if self.next > now {
            Pace { wait: self.next - now, warn: false }
        } else {
            let warn: bool = !self.warned;
            self.warned = true;
            self.next = now;
            Pace { wait: 0, warn }
        }
    }
}

/// The digit that links sentences after handling payloads one by one.
pub open spec fn seq_after(start: u8, payloads: Seq<Seq<bool>>) -> int
    decreases payloads.len(),
{
    if payloads.len() == 0 {
        start as int
    } else {
        let before = seq_after(start, payloads.drop_last());
        if nmea::part_count(payloads.last()) > 1 {
            (before + 1) % 10
        } else {
            before
        }
    }
}

/// The linking digit stays a single digit.
pub proof fn law_sequence_is_one_digit(start: u8, payloads: Seq<Seq<bool>>)
    requires
        start < 10,
    ensures
        0 <= seq_after(start, payloads) < 10,
    decreases payloads.len(),
{
    if payloads.len() > 0 {
        law_sequence_is_one_digit(start, payloads.drop_last());
    }
}

} // verus!
