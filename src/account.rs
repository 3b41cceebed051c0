//! The user-data link's timers: a keep-alive of the listen key every 30
//! minutes, and reconnect attempts at most once every 10 seconds while the
//! link is down. The caller performs the requests and the connecting.
use vstd::prelude::*;

verus! {

/// Milliseconds between two keep-alives of the listen key.
pub const KEEPALIVE_MS: u64 = 1800000;

/// Milliseconds between two reconnect attempts of the user-data link.
pub const ACCOUNT_RETRY_MS: u64 = 10000;

/// State of the user-data link.
pub struct Account {
    /// Whether the link is down.
    pub disconnected: bool,
    /// When the last keep-alive or reconnect attempt was made (ms).
    pub time: u64,
}

/// Whether `now` lies at least `span` after `then`.
pub open spec fn elapsed(now: u64, then: u64, span: u64) -> bool {
    now as int >= then as int + span as int
}

impl Account {
    /// A link connected at `now_ms`.
    pub fn new(now_ms: u64) -> (r: Account)
        ensures
            !r.disconnected,
            r.time == now_ms,
    {
        Account { disconnected: false, time: now_ms }
    }

    pub fn disconnected(&self) -> (r: bool)
        ensures
            r == self.disconnected,
    {
        self.disconnected
    }

    /// The link's read ended: it is down.
    pub fn mark_disconnected(&mut self)
        ensures
            final(self).disconnected,
            final(self).time == old(self).time,
    {
        self.disconnected = true;
    }

    /// Whether the listen key is due a keep-alive at `now_ms`; when it is,
    /// `now_ms` becomes the time of the last keep-alive.
    pub fn keepalive_due(&mut self, now_ms: u64) -> (r: bool)
        ensures
            r == elapsed(now_ms, old(self).time, KEEPALIVE_MS),
            final(self).time == if r { now_ms } else { old(self).time },
            final(self).disconnected == old(self).disconnected,
    {
        if now_ms >= self.time && now_ms - self.time >= KEEPALIVE_MS {
            self.time = now_ms;
            true
        } else {
            false
        }
    }

    /// Whether a reconnect attempt is due at `now_ms`: the link is down and
    /// the last attempt lies at least `ACCOUNT_RETRY_MS` back. When it is,
    /// `now_ms` becomes the time of the last attempt.
    pub fn reconnect_due(&mut self, now_ms: u64) -> (r: bool)
        ensures
            r == (old(self).disconnected && elapsed(now_ms, old(self).time, ACCOUNT_RETRY_MS)),
            final(self).time == if r { now_ms } else { old(self).time },
            final(self).disconnected == old(self).disconnected,
    {
        if self.disconnected && now_ms >= self.time && now_ms - self.time >= ACCOUNT_RETRY_MS {
            self.time = now_ms;
            true
        } else {
            false
        }
    }

    /// A reconnect attempt succeeded.
    pub fn on_reconnected(&mut self)
        ensures
            !final(self).disconnected,
            final(self).time == old(self).time,
    {
        self.disconnected = false;
    }
}

} // verus!
