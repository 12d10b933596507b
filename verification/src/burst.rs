//! When what is sent: the envelope of a burst, the queue of an AIS channel, the
//! rhythm of a frequency hopper.

use std::collections::VecDeque;
use vstd::prelude::*;

verus! {

/// Height of the envelope at sample `pos` of a burst of `len` samples: it rises
/// over `ramp` samples and falls in the same way.
pub open spec fn edge_at(pos: int, len: int, ramp: int) -> int {
    let near = if pos < len - 1 - pos {
        pos
    } else {
        len - 1 - pos
    };
    if near < ramp {
        near
    } else {
        ramp
    }
}

/// Height of the envelope.
pub fn edge(pos: usize, len: usize, ramp: usize) -> (r: usize)
    requires
        pos < len,
    ensures
        r == edge_at(pos as int, len as int, ramp as int),
        r <= ramp,
{
    let back: usize = len - 1 - pos;
    let near: usize = if pos < back {
        pos
    } else {
        back
    };
    if near < ramp {
        near
    } else {
        ramp
    }
}

/// A burst begins and ends at height zero and is as high on one flank as on the
/// other.
pub proof fn law_envelope_is_symmetric(pos: int, len: int, ramp: int)
    requires
        0 <= pos < len,
        ramp >= 0,
    ensures
        edge_at(pos, len, ramp) == edge_at(len - 1 - pos, len, ramp),
        edge_at(0, len, ramp) == 0,
        edge_at(len - 1, len, ramp) == 0,
        ramp <= pos <= len - 1 - ramp ==> edge_at(pos, len, ramp) == ramp,
{
}

/// A burst that begins after a delay.
#[derive(Clone, Copy, Debug, PartialEq, Eq, Structural)]
pub struct BurstClock {
    pub len: usize,
    pub delay: usize,
    pub pos: usize,
    /// Samples over which the flanks rise, at least one.
    pub ramp: usize,
}

/// What a burst sends at a sample.
#[derive(Clone, Copy, Debug, PartialEq, Eq, Structural)]
pub struct BurstStep {
    pub pos: usize,
    pub edge: usize,
}

/// A burst one sample later.
pub open spec fn ticked(b: BurstClock) -> BurstClock {
    if b.delay > 0 {
        BurstClock { delay: (b.delay - 1) as usize, ..b }
    } else if b.pos < b.len {
        BurstClock { pos: (b.pos + 1) as usize, ..b }
    } else {
        b
    }
}

/// What a burst sends now; `None` is silence.
pub open spec fn sends(b: BurstClock) -> Option<BurstStep> {
    if b.delay == 0 && b.pos < b.len {
        Some(
            BurstStep {
                pos: b.pos,
                edge: edge_at(b.pos as int, b.len as int, b.ramp as int) as usize,
            },
        )
    } else {
        None
    }
}

impl BurstClock {
    /// A burst of `len` samples after `delay` samples.
    pub fn burst(len: usize, delay: usize, ramp: usize) -> (b: Self)
        ensures
            b == (BurstClock {
                len,
                delay,
                pos: 0,
                ramp: if ramp > 0 {
                    ramp
                } else {
                    1
                },
            }),
    {
        BurstClock {
            len,
            delay,
            pos: 0,
            ramp: if ramp > 0 {
                ramp
            } else {
                1
            },
        }
    }

    /// What is sent now; then one sample on.
    pub fn next(&mut self) -> (r: Option<BurstStep>)
        ensures
            r == sends(*old(self)),
            *final(self) == ticked(*old(self)),
    {
        if self.delay > 0 {
            self.delay = self.delay - 1;
            return None;
        }
        if self.pos >= self.len {
            return None;
        }
        let e: usize = edge(self.pos, self.len, self.ramp);
        let step: BurstStep = BurstStep { pos: self.pos, edge: e };
        self.pos = self.pos + 1;
        Some(step)
    }
}

/// A burst `n` samples later.
pub open spec fn ticked_by(b: BurstClock, n: nat) -> BurstClock
    decreases n,
{
    if n == 0 {
        b
    } else {
        ticked(ticked_by(b, (n - 1) as nat))
    }
}

proof fn lemma_ticked_by(b: BurstClock, n: nat)
    requires
        b.pos == 0,
    ensures
        ({
            let r = ticked_by(b, n);
            &&& r.len == b.len
            &&& r.ramp == b.ramp
            &&& r.delay == (if n < b.delay {
                b.delay - n
            } else {
                0
            })
            &&& r.pos == (if n < b.delay {
                0
            } else if n - b.delay < b.len {
                n - b.delay
            } else {
                b.len as int
            })
        }),
    decreases n,
{
    if n > 0 {
        lemma_ticked_by(b, (n - 1) as nat);
    }
}

/// A burst is silent for its delay, then sends each of its samples once, in
/// order, and is silent again.
pub proof fn law_burst_is_sent_once(b: BurstClock, n: nat)
    requires
        b.pos == 0,
    ensures
        n < b.delay ==> sends(ticked_by(b, n)) is None,
        b.delay <= n < b.delay + b.len ==> {
            &&& sends(ticked_by(b, n)) is Some
            &&& sends(ticked_by(b, n)).unwrap().pos == n - b.delay
        },
        n >= b.delay + b.len ==> sends(ticked_by(b, n)) is None,
{
    lemma_ticked_by(b, n);
}

/// A modulated burst: frequencies and amplitude as order keys.
#[derive(Clone, Debug, PartialEq, Eq)]
pub struct Burst {
    pub freq: Vec<i64>,
    pub amplitude: i64,
}

/// What a [`Burst`] holds.
#[verifier::ext_equal]
pub struct BurstView {
    pub freq: Seq<i64>,
    pub amplitude: i64,
}

impl View for Burst {
    type V = BurstView;

    open spec fn view(&self) -> BurstView {
        BurstView { freq: self.freq@, amplitude: self.amplitude }
    }
}

/// One sample of a channel.
#[derive(Clone, Copy, Debug, PartialEq, Eq, Structural)]
pub struct Sample {
    pub freq: i64,
    pub amplitude: i64,
    pub edge: usize,
}

/// An AIS channel: sends bursts one after the other with a guard time between
/// them, so that they do not overlap.
pub struct AisChannel {
    queue: VecDeque<Burst>,
    current: Option<Burst>,
    pos: usize,
    guard: usize,
}

/// What an [`AisChannel`] holds.
#[verifier::ext_equal]
pub struct ChannelState {
    /// Bursts that wait.
    pub queue: Seq<BurstView>,
    /// The burst that is being sent.
    pub current: Option<BurstView>,
    pub pos: nat,
    /// Samples of silence that are left.
    pub guard: nat,
}

pub open spec fn burst_views(q: Seq<Burst>) -> Seq<BurstView> {
    q.map_values(|b: Burst| b@)
}

impl View for AisChannel {
    type V = ChannelState;

    closed spec fn view(&self) -> ChannelState {
        ChannelState {
            queue: burst_views(self.queue@),
            current: match self.current {
                Some(b) => Some(b@),
                None => None,
            },
            pos: self.pos as nat,
            guard: self.guard as nat,
        }
    }
}

/// No burst is empty, and the burst that is being sent is not over.
pub open spec fn is_valid(s: ChannelState) -> bool {
    &&& forall|i: int| 0 <= i < s.queue.len() ==> (#[trigger] s.queue[i]).freq.len() > 0
    &&& s.current matches Some(b) ==> s.pos < b.freq.len()
}

/// The channel with a burst to send, if there is one now: the next one begins
/// when nothing is being sent and the guard time is over.
pub open spec fn begun(s: ChannelState) -> ChannelState {
    if s.current is Some || s.guard > 0 || s.queue.len() == 0 {
        s
    } else {
        ChannelState {
            queue: s.queue.drop_first(),
            current: Some(s.queue[0]),
            pos: 0,
            guard: 0,
        }
    }
}

/// What a channel sends now; `None` is silence.
pub open spec fn output(s: ChannelState, ramp: int) -> Option<Sample> {
    let b = begun(s);
    match b.current {
        Some(burst) => Some(
            Sample {
                freq: burst.freq[b.pos as int],
                amplitude: burst.amplitude,
                edge: edge_at(b.pos as int, burst.freq.len() as int, ramp) as usize,
            },
        ),
        None => None,
    }
}

/// A channel one sample later; after a burst it is silent for `slot` samples.
pub open spec fn advanced(s: ChannelState, slot: nat) -> ChannelState {
    let b = begun(s);
    match b.current {
        Some(burst) => if b.pos + 1 == burst.freq.len() {
            ChannelState { current: None, pos: b.pos + 1, guard: slot, ..b }
        } else {
            ChannelState { pos: b.pos + 1, ..b }
        },
        None => if s.guard > 0 {
            ChannelState { guard: (s.guard - 1) as nat, ..s }
        } else {
            ChannelState { pos: 0, ..s }
        },
    }
}

impl AisChannel {
    /// A silent channel.
    pub fn new() -> (r: Self)
        ensures
            is_valid(r@),
            r@ == (ChannelState { queue: Seq::empty(), current: None, pos: 0, guard: 0 }),
    {
        let r = AisChannel { queue: VecDeque::new(), current: None, pos: 0, guard: 0 };
        assert(r@.queue =~= Seq::<BurstView>::empty());
        r
    }

    /// Appends a burst to the queue.
    pub fn push(&mut self, burst: Burst)
        requires
            is_valid(old(self)@),
            burst.freq@.len() > 0,
        ensures
            is_valid(final(self)@),
            final(self)@ == (ChannelState {
                queue: old(self)@.queue.push(burst@),
                ..old(self)@
            }),
    {
        let ghost before = self.queue@;
        self.queue.push_back(burst);
        assert(burst_views(self.queue@) =~= burst_views(before).push(burst@));
    }

    /// What is sent now; then one sample on.
    pub fn next(&mut self, ramp: usize, slot: usize) -> (r: Option<Sample>)
        requires
            is_valid(old(self)@),
        ensures
            is_valid(final(self)@),
            r == output(old(self)@, ramp as int),
            final(self)@ == advanced(old(self)@, slot as nat),
    {
        let ghost s = self@;
        if self.current.is_none() {
            if self.guard > 0 {
                self.guard = self.guard - 1;
                return None;
            }
            let ghost before = self.queue@;
            self.current = self.queue.pop_front();
            self.pos = 0;
            proof {
                if before.len() > 0 {
                    assert(s.queue[0] == before[0]@);
                    assert(burst_views(self.queue@) =~= s.queue.drop_first());
                }
            }
        }
        assert(self@ == begun(s) || (self.current is None && s.queue.len() == 0));
        let pos: usize = self.pos;
        let sample: Sample;
        let len: usize;
        match &self.current {
            None => {
                return None;
            },
            Some(burst) => {
                len = burst.freq.len();
                sample =
                Sample {
                    freq: burst.freq[pos],
                    amplitude: burst.amplitude,
                    edge: edge(pos, len, ramp),
                };
            },
        }
        self.pos = pos + 1;
        if self.pos == len {
            self.current = None;
            self.guard = slot;
        }
        Some(sample)
    }
}

/// A channel `n` samples later, with nothing added to its queue.
pub open spec fn advanced_by(s: ChannelState, slot: nat, n: nat) -> ChannelState
    decreases n,
{
    if n == 0 {
        s
    } else {
        advanced(advanced_by(s, slot, (n - 1) as nat), slot)
    }
}

/// The first burst in the queue of a free channel is sent completely and in
/// order, and then nothing for the whole guard time, whatever waits behind it.
pub proof fn law_burst_is_followed_by_silence(s: ChannelState, slot: nat, ramp: int, n: nat)
    requires
        is_valid(s),
        s.current is None,
        s.guard == 0,
        s.queue.len() > 0,
        n < s.queue[0].freq.len() + slot,
    ensures
        ({
            let b = s.queue[0];
            let now = advanced_by(s, slot, n);
            &&& n < b.freq.len() ==> {
                &&& output(now, ramp) is Some
                &&& output(now, ramp).unwrap().freq == b.freq[n as int]
                &&& output(now, ramp).unwrap().amplitude == b.amplitude
                &&& output(now, ramp).unwrap().edge == edge_at(
                    n as int,
                    b.freq.len() as int,
                    ramp,
                ) as usize
            }
            &&& n >= b.freq.len() ==> output(now, ramp) is None && now.queue
                == s.queue.drop_first()
        }),
{
    lemma_sending(s, slot, n);
}

proof fn lemma_sending(s: ChannelState, slot: nat, n: nat)
    requires
        is_valid(s),
        s.current is None,
        s.guard == 0,
        s.queue.len() > 0,
        n <= s.queue[0].freq.len() + slot,
    ensures
        ({
            let b = s.queue[0];
            let now = advanced_by(s, slot, n);
            &&& n == 0 ==> now == s
            &&& n > 0 ==> now.queue == s.queue.drop_first()
            &&& 0 < n < b.freq.len() ==> now.current == Some(b) && now.pos == n
            &&& n >= b.freq.len() ==> now.current is None && now.guard == slot - (n
                - b.freq.len())
        }),
    decreases n,
{
    assert(s.queue[0].freq.len() > 0);
    if n > 0 {
        lemma_sending(s, slot, (n - 1) as nat);
    }
}

/// A frequency hopper: counts the samples that are left on a frequency.
#[derive(Clone, Copy, Debug, PartialEq, Eq, Structural)]
pub struct Hopper {
    pub left: usize,
}

impl Hopper {
    /// Whether the frequency changes at this sample; then one sample on. It
    /// stays for `hop` samples.
    pub fn next(&mut self, hop: usize) -> (change: bool)
        requires
            hop > 0,
        ensures
            change == (old(self).left == 0),
            final(self).left == (if old(self).left == 0 {
                hop - 1
            } else {
                old(self).left - 1
            }),
    {
        let change: bool = self.left == 0;
        if change {
            self.left = hop;
        }
        self.left = self.left - 1;
        change
    }
}

/// Samples left after `n` samples.
pub open spec fn left_after(left: nat, hop: nat, n: nat) -> nat
    decreases n,
{
    if n == 0 {
        left
    } else {
        let before = left_after(left, hop, (n - 1) as nat);
        if before == 0 {
            (hop - 1) as nat
        } else {
            (before - 1) as nat
        }
    }
}

/// From a change on the next one comes exactly `hop` samples later.
pub proof fn law_hops_are_regular(hop: nat, n: nat)
    requires
        hop > 0,
        n <= hop,
    ensures
        left_after(0, hop, n) == 0 <==> n == 0 || n == hop,
        n > 0 ==> left_after(0, hop, n) == hop - n,
    decreases n,
{
    if n > 0 {
        law_hops_are_regular(hop, (n - 1) as nat);
    }
}

} // verus!
