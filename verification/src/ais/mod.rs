//! AIS: ships report position, course and voyage data on two VHF channels,
//! GMSK modulated at 9600 bit/s.
//!
//! The modules cover the chain in both directions: [`message`] to and from
//! bits, [`frame`] to and from HDLC and NRZI, [`gmsk`] for sending, [`demod`]
//! for receiving, [`nmea`] for the output to other programs.

pub mod air_laws;
pub mod bits;
pub mod demod;
pub mod fleet;
pub mod frame;
pub mod frame_laws;
pub mod gmsk;
pub mod layout_laws;
pub mod message;
pub mod message_laws;
pub mod nmea;
pub mod nmea_laws;
pub mod sentence_laws;

use vstd::prelude::*;

verus! {

/// One of the two AIS channels.
#[derive(Clone, Copy, Debug, PartialEq, Eq, PartialOrd, Ord, Hash, Structural)]
pub enum Channel {
    /// 161.975 MHz (VHF channel 87B)
    A,
    /// 162.025 MHz (VHF channel 88B)
    B,
}

impl Channel {
    /// Carrier frequency.
    pub fn freq_hz(self) -> (hz: u32)
        ensures
            hz == match self {
                Channel::A => 161_975_000u32,
                Channel::B => 162_025_000u32,
            },
    {
        match self {
            Channel::A => 161_975_000,
            Channel::B => 162_025_000,
        }
    }

    pub fn letter(self) -> (c: char)
        ensures
            c == match self {
                Channel::A => 'A',
                Channel::B => 'B',
            },
    {
        match self {
            Channel::A => 'A',
            Channel::B => 'B',
        }
    }
}

/// Levels of a complete burst: frame, NRZI, and four more bits without a
/// change, so that the pulse shaping does not cut off the closing flag.
pub open spec fn burst_levels(payload: Seq<bool>) -> Seq<bool> {
    let body = frame::levels(frame::frame_bits(payload));
    body + seq![body.last(), body.last(), body.last(), body.last()]
}

/// The levels to send for a payload.
pub fn modulate(payload: &[bool]) -> (r: Vec<bool>)
    ensures
        r@ == burst_levels(payload@),
{
    let built: Vec<bool> = frame::build(payload);
    let mut r: Vec<bool> = frame::nrzi(&built);
    let ghost body = r@;
    proof {
        frame_laws::law_nrzi_round_trip(built@);
        assert(body.len() == built@.len());
    }
    let last: bool = r[r.len() - 1];
    r.push(last);
    r.push(last);
    r.push(last);
    r.push(last);
    assert(r@ =~= burst_levels(payload@));
    r
}

} // verus!
