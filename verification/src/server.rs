//! Serving connections: what follows a failed accept, and how a server drains.

use vstd::prelude::*;
use vstd::string::*;
use crate::forwarder::joined;
use crate::time::{elapsed, time_since};

verus! {

/// How long a server waits for its connections to end.
pub const DRAIN_TIMEOUT: u64 = 30_000_000_000;

/// How long it waits before it looks again.
pub const DRAIN_POLL: u64 = 100_000_000;

/// What a server loop does after an accept.
pub enum AcceptStep {
    /// Serve the connection and accept the next
    Serve,
    /// Accept the next
    Skip,
    /// Stop with this error
    Stop(String),
}

/// What follows an accept: a plain server stops on the first failure, one that terminates TLS goes
/// on.
pub fn after_accept(failed: Option<String>, tls: bool) -> (r: AcceptStep)
    ensures
        match failed {
            None => r is Serve,
            Some(why) => if tls {
                r is Skip
            } else {
                r is Stop && r->Stop_0@ == "Failed to accept connection: "@ + why@
            },
        },
{
    match failed {
        None => AcceptStep::Serve,
        Some(why) => if tls {
            AcceptStep::Skip
        } else {
            AcceptStep::Stop(joined("Failed to accept connection: ", why.as_str()))
        },
    }
}

/// The text of a failed bind.
pub fn bind_error(bind_addr: &str, why: &str) -> (r: String)
    ensures
        r@ == "Failed to bind to "@ + bind_addr@ + ": "@ + why@,
{
    let mut s = "Failed to bind to ".to_owned();
    s.append(bind_addr);
    s.append(": ");
    s.append(why);
    s
}

/// What a draining server does.
#[derive(Debug, Clone, Copy, PartialEq, Eq, Structural)]
pub enum DrainStep {
    /// Look again after so many nanoseconds
    Wait(u64),
    /// All connections ended: shut down
    Done,
    /// Time is up: shut down with connections open
    Forced,
}

/// What a server does that has been draining since an instant.
pub open spec fn drain_step(active: usize, since: u64, now: u64) -> DrainStep {
    if active == 0 {
        DrainStep::Done
    } else if elapsed(since, now) > DRAIN_TIMEOUT {
        DrainStep::Forced
    } else {
        DrainStep::Wait(DRAIN_POLL)
    }
}

/// The connections of a server.
pub struct Connections {
    active: usize,
}

impl Connections {
    /// The connections that are open.
    pub closed spec fn open_now(&self) -> usize {
        self.active
    }

    /// No connection is open.
    pub fn new() -> (r: Self)
        ensures
            r.open_now() == 0,
    {
        Connections { active: 0 }
    }

    /// A connection was accepted.
    pub fn opened(&mut self)
        requires
            old(self).open_now() < usize::MAX,
        ensures
            final(self).open_now() == old(self).open_now() + 1,
    {
        self.active = self.active + 1;
    }

    /// A connection ended.
    pub fn closed(&mut self)
        requires
            old(self).open_now() > 0,
        ensures
            final(self).open_now() == old(self).open_now() - 1,
    {
        self.active = self.active - 1;
    }

    /// The number of open connections.
    pub fn active(&self) -> (r: usize)
        ensures
            r == self.open_now(),
    {
        self.active
    }

    /// What the server does that has been draining since an instant.
    pub fn serve_with_shutdown(&self, since: u64, now: u64) -> (r: DrainStep)
        ensures
            r == drain_step(self.open_now(), since, now),
    {
        if self.active == 0 {
            DrainStep::Done
        } else if time_since(since, now) > DRAIN_TIMEOUT {
            DrainStep::Forced
        } else {
            DrainStep::Wait(DRAIN_POLL)
        }
    }
}

/// A server that drains shuts down as soon as it sees no open connection, and at the latest once
/// the drain time is over.
pub proof fn lemma_draining_ends(active: usize, since: u64, now: u64)
    ensures
        active == 0 ==> drain_step(active, since, now) == DrainStep::Done,
        elapsed(since, now) > DRAIN_TIMEOUT ==> !(drain_step(active, since, now) is Wait),
        drain_step(active, since, now) == DrainStep::Forced ==> active > 0,
{
}

/// A draining server is done as soon as no connection is open. While one is, it looks again after a
/// hundred milliseconds, for thirty seconds and not longer; then it is forced.
pub proof fn lemma_draining_waits_for_connections(active: usize, since: u64, now: u64)
    requires
        since <= now,
    ensures
        drain_step(active, since, now) == DrainStep::Done <==> active == 0,
        drain_step(active, since, now) == DrainStep::Forced <==> active > 0 && now - since
            > 30_000_000_000,
        drain_step(active, since, now) == DrainStep::Wait(100_000_000) <==> active > 0 && now
            - since <= 30_000_000_000,
{
}

} // verus!
