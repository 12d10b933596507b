//! AIS receiver for both channels, from sampled levels to frames: zero
//! crossings for the clock recovery, NRZI decoding and frame search with CRC.

use super::frame;
use super::frame::Deframer;
use super::Channel;
use vstd::prelude::*;

verus! {

/// A frame with a valid CRC.
#[derive(Clone, Debug, PartialEq, Eq)]
pub struct ReceivedFrame {
    pub channel: Channel,
    pub payload: Vec<bool>,
}

/// What a channel's receiver knows of the signal so far.
pub struct ReceiverState {
    pub channel: Channel,
    /// Sign of the last sample behind the discriminator.
    pub last_sign: bool,
    /// Level of the last bit.
    pub last_level: bool,
    pub link: frame::DeframerState,
}

/// Channel and payload of received frames.
pub open spec fn contents(frames: Seq<ReceivedFrame>) -> Seq<(Channel, Seq<bool>)> {
    Seq::new(frames.len(), |i: int| (frames[i].channel, frames[i].payload@))
}

/// The payloads of a channel.
pub open spec fn on_channel(channel: Channel, payloads: Seq<Seq<bool>>) -> Seq<
    (Channel, Seq<bool>),
> {
    Seq::new(payloads.len(), |i: int| (channel, payloads[i]))
}

/// Receiver of one channel.
pub struct ChannelReceiver {
    channel: Channel,
    last_sign: bool,
    last_level: bool,
    deframer: Deframer,
}

impl View for ChannelReceiver {
    type V = ReceiverState;

    closed spec fn view(&self) -> ReceiverState {
        ReceiverState {
            channel: self.channel,
            last_sign: self.last_sign,
            last_level: self.last_level,
            link: self.deframer@,
        }
    }
}

impl ChannelReceiver {
    pub closed spec fn wf(&self) -> bool {
        self.deframer.wf()
    }

    /// A receiver before its first sample.
    pub fn new(channel: Channel) -> (r: Self)
        ensures
            r.wf(),
            r@ == (ReceiverState {
                channel,
                last_sign: false,
                last_level: false,
                link: frame::hunting(),
            }),
    {
        ChannelReceiver {
            channel,
            last_sign: false,
            last_level: false,
            deframer: Deframer::default(),
        }
    }

    /// Takes the sign of a sample behind the discriminator and says whether it
    /// crossed zero since the last one.
    pub fn crossing(&mut self, sign: bool) -> (crossed: bool)
        requires
            old(self).wf(),
        ensures
            final(self).wf(),
            crossed == (sign != old(self)@.last_sign),
            final(self)@ == (ReceiverState { last_sign: sign, ..old(self)@ }),
    {
        let crossed: bool = sign != self.last_sign;
        self.last_sign = sign;
        crossed
    }

    /// Takes the level in the middle of a bit. NRZI: an unchanged level is a
    /// 1, a change is a 0.
    pub fn symbol(&mut self, level: bool) -> (r: Option<Vec<bool>>)
        requires
            old(self).wf(),
        ensures
            final(self).wf(),
            ({
                let (link, payload) = frame::deframe_step(
                    old(self)@.link,
                    level == old(self)@.last_level,
                );
                &&& final(self)@ == (ReceiverState { last_level: level, link, ..old(self)@ })
                &&& r is Some <==> payload is Some
                &&& r matches Some(p) ==> payload == Some(p@)
            }),
    {
        let bit: bool = level == self.last_level;
        self.last_level = level;
        self.deframer.push(bit)
    }

    /// Takes the levels of consecutive bits and appends the frames that they
    /// complete.
    pub fn process(&mut self, levels: &[bool], out: &mut Vec<ReceivedFrame>)
        requires
            old(self).wf(),
        ensures
            final(self).wf(),
            ({
                let bits = frame::level_bits(old(self)@.last_level, levels@);
                let (link, payloads) = frame::deframe(old(self)@.link, bits);
                &&& final(self)@.channel == old(self)@.channel
                &&& final(self)@.last_sign == old(self)@.last_sign
                &&& final(self)@.last_level == if levels@.len() > 0 {
                    levels@.last()
                } else {
                    old(self)@.last_level
                }
                &&& final(self)@.link == link
                &&& contents(final(out)@) == contents(old(out)@) + on_channel(
                    old(self)@.channel,
                    payloads,
                )
            }),
    {
        let ghost start = self@;
        let ghost bits = frame::level_bits(start.last_level, levels@);
        let ghost before = contents(out@);
        let mut i: usize = 0;
        proof {
            assert(bits.take(0) =~= Seq::<bool>::empty());
            assert(contents(out@) =~= before + on_channel(start.channel, Seq::empty()));
        }
        while i < levels.len()
            invariant
                i <= levels@.len(),
                self.wf(),
                bits == frame::level_bits(start.last_level, levels@),
                self@.channel == start.channel,
                self@.last_sign == start.last_sign,
                self@.last_level == if i > 0 {
                    levels@[i - 1]
                } else {
                    start.last_level
                },
                self@.link == frame::deframe(start.link, bits.take(i as int)).0,
                contents(out@) == before + on_channel(
                    start.channel,
                    frame::deframe(start.link, bits.take(i as int)).1,
                ),
            decreases levels@.len() - i,
        {
            let ghost so_far = frame::deframe(start.link, bits.take(i as int)).1;
            let ghost had = contents(out@);
            assert(bits.take(i + 1).drop_last() =~= bits.take(i as int));
            if let Some(payload) = self.symbol(levels[i]) {
                let ghost p = payload@;
                out.push(ReceivedFrame { channel: self.channel, payload });
                assert(contents(out@) =~= had.push((start.channel, p)));
                assert(contents(out@) =~= before + on_channel(start.channel, so_far.push(p)));
            }
            i += 1;
        }
        assert(bits.take(i as int) =~= bits);
    }
}

/// Receives both AIS channels.
pub struct AisReceiver {
    a: ChannelReceiver,
    b: ChannelReceiver,
}

impl View for AisReceiver {
    type V = (ReceiverState, ReceiverState);

    closed spec fn view(&self) -> (ReceiverState, ReceiverState) {
        (self.a@, self.b@)
    }
}

impl AisReceiver {
    /// The two receivers listen to channel A and channel B.
    pub closed spec fn wf(&self) -> bool {
        &&& self.a.wf()
        &&& self.b.wf()
        &&& self.a@.channel == Channel::A
        &&& self.b@.channel == Channel::B
    }

    /// A receiver before its first sample.
    pub fn new() -> (r: Self)
        ensures
            r.wf(),
            r@.0.link == frame::hunting(),
            r@.1.link == frame::hunting(),
            !r@.0.last_level,
            !r@.1.last_level,
            !r@.0.last_sign,
            !r@.1.last_sign,
    {
        AisReceiver { a: ChannelReceiver::new(Channel::A), b: ChannelReceiver::new(Channel::B) }
    }

    /// Takes the sign of a sample behind a channel's discriminator and says
    /// whether it crossed zero.
    pub fn crossing(&mut self, channel: Channel, sign: bool) -> (crossed: bool)
        requires
            old(self).wf(),
        ensures
            final(self).wf(),
            match channel {
                Channel::A => {
                    &&& crossed == (sign != old(self)@.0.last_sign)
                    &&& final(self)@.0 == (ReceiverState { last_sign: sign, ..old(self)@.0 })
                    &&& final(self)@.1 == old(self)@.1
                },
                Channel::B => {
                    &&& crossed == (sign != old(self)@.1.last_sign)
                    &&& final(self)@.1 == (ReceiverState { last_sign: sign, ..old(self)@.1 })
                    &&& final(self)@.0 == old(self)@.0
                },
            },
    {
        match channel {
            Channel::A => self.a.crossing(sign),
            Channel::B => self.b.crossing(sign),
        }
    }

    /// Takes the levels of consecutive bits on both channels and gives the
    /// frames that they complete, those of channel A first.
    pub fn process(&mut self, a: &[bool], b: &[bool]) -> (out: Vec<ReceivedFrame>)
        requires
            old(self).wf(),
        ensures
            final(self).wf(),
            ({
                let (s, t) = old(self)@;
                let (s_link, s_payloads) = frame::deframe(
                    s.link,
                    frame::level_bits(s.last_level, a@),
                );
                let (t_link, t_payloads) = frame::deframe(
                    t.link,
                    frame::level_bits(t.last_level, b@),
                );
                &&& contents(out@) == on_channel(Channel::A, s_payloads) + on_channel(
                    Channel::B,
                    t_payloads,
                )
                &&& final(self)@.0.link == s_link
                &&& final(self)@.1.link == t_link
                &&& final(self)@.0.last_level == if a@.len() > 0 {
                    a@.last()
                } else {
                    s.last_level
                }
                &&& final(self)@.1.last_level == if b@.len() > 0 {
                    b@.last()
                } else {
                    t.last_level
                }
                &&& final(self)@.0.last_sign == s.last_sign
                &&& final(self)@.1.last_sign == t.last_sign
            }),
    {
        let mut out: Vec<ReceivedFrame> = Vec::new();
        assert(contents(out@) =~= Seq::<(Channel, Seq<bool>)>::empty());
        self.a.process(a, &mut out);
        self.b.process(b, &mut out);
        let ghost (s, t) = old(self)@;
        assert(contents(out@) =~= on_channel(
            Channel::A,
            frame::deframe(s.link, frame::level_bits(s.last_level, a@)).1,
        ) + on_channel(
            Channel::B,
            frame::deframe(t.link, frame::level_bits(t.last_level, b@)).1,
        ));
        out
    }
}

/// Every frame is given with its own channel and payload, those of channel A
/// first, in the order in which they were received.
pub proof fn law_frames_keep_their_channel(
    out: Seq<ReceivedFrame>,
    a: Seq<Seq<bool>>,
    b: Seq<Seq<bool>>,
)
    requires
        contents(out) == on_channel(Channel::A, a) + on_channel(Channel::B, b),
    ensures
        out.len() == a.len() + b.len(),
        forall|i: int|
            0 <= i < a.len() ==> (#[trigger] out[i]).channel == Channel::A && out[i].payload@ == a[i],
        forall|i: int|
            a.len() <= i < out.len() ==> (#[trigger] out[i]).channel == Channel::B && out[i].payload@
                == b[i - a.len()],
{
    let c = contents(out);
    assert(c.len() == out.len());
    assert forall|i: int| 0 <= i < out.len() implies (#[trigger] out[i]).channel == c[i].0
        && out[i].payload@ == c[i].1 by {}
    assert forall|i: int| 0 <= i < a.len() implies (#[trigger] out[i]).channel == Channel::A
        && out[i].payload@ == a[i] by {
        assert(c[i] == on_channel(Channel::A, a)[i]);
    }
    assert forall|i: int| a.len() <= i < out.len() implies (#[trigger] out[i]).channel
        == Channel::B && out[i].payload@ == b[i - a.len()] by {
        assert(c[i] == on_channel(Channel::B, b)[i - a.len()]);
    }
}

} // verus!
