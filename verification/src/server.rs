//! Limits of the queries, and how a stream is passed on to a client.

use vstd::prelude::*;

verus! {

/// At most that many points of a track per query, and that many without a
/// wish.
pub const TRACK_MAX: u32 = 10_000;

pub const TRACK_DEFAULT: u32 = 500;

/// At most that many messages per query, and that many without a wish.
pub const MESSAGES_MAX: u32 = 1_000;

pub const MESSAGES_DEFAULT: u32 = 50;

/// A wish, or the default without one, but no more than the maximum.
pub open spec fn limited(wish: Option<u32>, default: u32, max: u32) -> u32 {
    let n = match wish {
        Some(n) => n,
        None => default,
    };
    if n <= max {
        n
    } else {
        max
    }
}

fn limit(wish: Option<u32>, default: u32, max: u32) -> (n: u32)
    ensures
        n == limited(wish, default, max),
{
    let n: u32 = match wish {
        Some(n) => n,
        None => default,
    };
    if n <= max {
        n
    } else {
        max
    }
}

/// Number of track points to answer with.
pub fn track_limit(wish: Option<u32>) -> (n: u32)
    ensures
        n == limited(wish, TRACK_DEFAULT, TRACK_MAX),
        n <= TRACK_MAX,
{
    limit(wish, TRACK_DEFAULT, TRACK_MAX)
}

/// Number of messages to answer with.
pub fn message_limit(wish: Option<u32>) -> (n: u32)
    ensures
        n == limited(wish, MESSAGES_DEFAULT, MESSAGES_MAX),
        n <= MESSAGES_MAX,
{
    limit(wish, MESSAGES_DEFAULT, MESSAGES_MAX)
}

/// What came out of the stream.
#[derive(Clone, Copy, Debug, PartialEq, Eq, Structural)]
pub enum Received {
    Item,
    /// The client was too slow and missed something.
    Lagged,
    Closed,
}

/// What to do about it.
#[derive(Clone, Copy, Debug, PartialEq, Eq, Structural)]
pub enum Forward {
    /// Send the item, and stop if that fails.
    Send,
    /// Skip what was missed instead of blocking.
    Skip,
    Stop,
}

/// How a stream goes on for a client.
pub fn forward(received: Received) -> (step: Forward)
    ensures
        step == match received {
            Received::Item => Forward::Send,
            Received::Lagged => Forward::Skip,
            Received::Closed => Forward::Stop,
        },
{
    match received {
        Received::Item => Forward::Send,
        Received::Lagged => Forward::Skip,
        Received::Closed => Forward::Stop,
    }
}

/// A wish is granted up to the limit; without one the usual number is given, if
/// the limit allows it.
pub proof fn law_wishes_are_limited(wish: u32, default: u32, max: u32)
    ensures
        limited(Some(wish), default, max) <= max,
        limited(None, default, max) <= max,
        wish <= max ==> limited(Some(wish), default, max) == wish,
        wish > max ==> limited(Some(wish), default, max) == max,
        default <= max ==> limited(None, default, max) == default,
        default > max ==> limited(None, default, max) == max,
{
}

} // verus!
