//! Connections to the server: a socket that is built up again when it breaks.

use crate::text;
use vstd::prelude::*;

verus! {

/// Milliseconds until the next attempt.
pub const RETRY_MS: u32 = 2_000;

/// Address of a socket on the server that the page came from.
pub fn ws_url(protocol: &str, host: &str, path: &str) -> (r: String)
    ensures
        r@ == (if protocol@ == "https:"@ {
            "wss"@
        } else {
            "ws"@
        }) + "://"@ + host@ + path@,
{
    let mut r = String::new();
    if text::same(protocol, "https:") {
        text::push_str(&mut r, "wss");
    } else {
        text::push_str(&mut r, "ws");
    }
    let ghost scheme = r@;
    text::push_str(&mut r, "://");
    text::push_str(&mut r, host);
    text::push_str(&mut r, path);
    assert(scheme =~= if protocol@ == "https:"@ {
        "wss"@
    } else {
        "ws"@
    });
    r
}

/// What happens to a connection.
#[derive(Clone, Copy, Debug, PartialEq, Eq, Structural)]
pub enum LinkEvent {
    /// The socket was opened.
    Opened,
    /// A message came.
    Message,
    /// The socket could not be opened, or it broke.
    Broken,
}

/// What is to be done.
#[derive(Clone, Copy, Debug, PartialEq, Eq, Structural)]
pub struct LinkAction {
    /// Report that the connection works, or that it does not.
    pub report: Option<bool>,
    /// Hand the message on.
    pub deliver: bool,
    /// Wait that long and open the socket again.
    pub retry_ms: Option<u32>,
}

/// A connection: whether a message has come since the socket was opened.
#[derive(Clone, Copy, Debug, PartialEq, Eq, Structural)]
pub struct Link {
    pub heard: bool,
}

/// A connection after an event.
pub open spec fn linked(l: Link, e: LinkEvent) -> Link {
    Link { heard: e == LinkEvent::Message }
}

/// What is to be done on an event: the first message reports that the
/// connection works, every message is handed on, and a break is reported and
/// followed by a new attempt.
pub open spec fn response(l: Link, e: LinkEvent) -> LinkAction {
    match e {
        LinkEvent::Opened => LinkAction { report: None, deliver: false, retry_ms: None },
        LinkEvent::Message => LinkAction {
            report: if l.heard {
                None
            } else {
                Some(true)
            },
            deliver: true,
            retry_ms: None,
        },
        LinkEvent::Broken => LinkAction {
            report: Some(false),
            deliver: false,
            retry_ms: Some(RETRY_MS),
        },
    }
}

impl Link {
    /// Takes an event.
    pub fn connect(&mut self, event: LinkEvent) -> (action: LinkAction)
        ensures
            *final(self) == linked(*old(self), event),
            action == response(*old(self), event),
    {
        match event {
            LinkEvent::Opened => {
                self.heard = false;
                LinkAction { report: None, deliver: false, retry_ms: None }
            },
            LinkEvent::Message => {
                let report: Option<bool> = if self.heard {
                    None
                } else {
                    Some(true)
                };
                self.heard = true;
                LinkAction { report, deliver: true, retry_ms: None }
            },
            LinkEvent::Broken => {
                self.heard = false;
                LinkAction { report: Some(false), deliver: false, retry_ms: Some(RETRY_MS) }
            },
        }
    }
}

/// A connection after several events.
pub open spec fn linked_all(l: Link, events: Seq<LinkEvent>) -> Link
    decreases events.len(),
{
    if events.len() == 0 {
        l
    } else {
        linked(linked_all(l, events.drop_last()), events.last())
    }
}

/// While messages keep coming, only the first one reports that the connection
/// works.
pub proof fn law_connection_is_reported_once(l: Link, n: nat)
    ensures
        ({
            let opened = linked(l, LinkEvent::Opened);
            let messages = Seq::new(n, |i: int| LinkEvent::Message);
            response(linked_all(opened, messages), LinkEvent::Message).report == (if n == 0 {
                Some(true)
            } else {
                None
            })
        }),
    decreases n,
{
    let messages = Seq::new(n, |i: int| LinkEvent::Message);
    if n > 0 {
        assert(messages.last() == LinkEvent::Message);
    }
}

/// Every message is delivered and nothing else is. A broken connection is
/// reported and tried again after two seconds; it is never reported to work
/// before a message came.
pub proof fn law_link_answers(l: Link, e: LinkEvent)
    ensures
        ({
            let a = response(l, e);
            &&& a.deliver <==> e == LinkEvent::Message
            &&& a.retry_ms == (if e == LinkEvent::Broken {
                Some(2000u32)
            } else {
                None
            })
            &&& a.report == Some(false) <==> e == LinkEvent::Broken
            &&& a.report == Some(true) <==> e == LinkEvent::Message && !l.heard
            &&& linked(l, e).heard <==> e == LinkEvent::Message
        }),
{
}

} // verus!
