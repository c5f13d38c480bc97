//! A peer as the routing table sees it: identifier, network address in its
//! textual form, and the freshness bookkeeping that drives its status.

use vstd::prelude::*;

verus! {

/// How long a request may stay unanswered before its peer counts as gone.
pub const BAD_PEER_TIMEOUT_MS: u64 = 15_000;

/// Freshness of a peer, derived from its request/response history.
#[derive(Debug, Clone, Copy, PartialEq, Eq, Structural)]
pub enum PeerStatus {
    /// Responded to the last request.
    Good,
    /// Contacted, but the verdict is still open.
    Questionable,
    /// At least one request is outstanding and the last one is stale.
    Bad,
    /// Never contacted.
    Unknown,
}

/// State about one peer in the routing table. Timestamps are caller-supplied
/// milliseconds of a monotonic clock.
#[derive(Debug, PartialEq, Eq)]
pub struct PeerNode {
    /// Identifier of the peer.
    pub id: u32,
    /// Network address of the peer, in its textual `host:port` form.
    pub addr: String,
    /// When the last request to it was sent, if any.
    pub last_request: Option<u64>,
    /// When the last response from it arrived, if any.
    pub last_response: Option<u64>,
    /// Requests sent since the last response.
    pub nb_successive_try: u64,
}

impl Clone for PeerNode {
    fn clone(&self) -> (res: Self)
        ensures
            res == *self,
    {
        PeerNode {
            id: self.id,
            addr: self.addr.clone(),
            last_request: self.last_request,
            last_response: self.last_response,
            nb_successive_try: self.nb_successive_try,
        }
    }
}

/// The status a peer has at time `now_ms`.
pub open spec fn spec_status(peer: PeerNode, now_ms: u64) -> PeerStatus {
    match peer.last_request {
        None => PeerStatus::Unknown,
        Some(last_req) => {
            if peer.nb_successive_try > 0 && last_req + BAD_PEER_TIMEOUT_MS < now_ms {
                PeerStatus::Bad
            } else if peer.last_response is Some {
                PeerStatus::Good
            } else {
                PeerStatus::Questionable
            }
        },
    }
}

impl PeerNode {
    /// A freshly learned peer: never contacted, status `Unknown`.
    pub fn new(id: u32, addr: String) -> (r: Self)
        ensures
            r.id == id,
            r.addr == addr,
            (r.last_request is None),
            (r.last_response is None),
            r.nb_successive_try == 0,
    {
        PeerNode { id, addr, last_request: None, last_response: None, nb_successive_try: 0 }
    }

    /// The peer's identifier.
    pub fn id(&self) -> (r: u32)
        ensures
            r == self.id,
    {
        self.id
    }

    /// Replace the peer's identifier, keeping everything else.
    pub fn set_id(&mut self, new_id: u32)
        ensures
            *final(self) == (PeerNode { id: new_id, ..*old(self) }),
    {
        self.id = new_id;
    }

    /// The peer's address in its textual form.
    pub fn addr(&self) -> (r: String)
        ensures
            r == self.addr,
    {
        self.addr.clone()
    }

    /// The peer's status at time `now_ms`: `Unknown` until first contacted,
    /// `Bad` once a request has gone unanswered longer than the timeout,
    /// `Good` after any response, `Questionable` in between.
    pub fn status(&self, now_ms: u64) -> (r: PeerStatus)
        ensures
            r == spec_status(*self, now_ms),
    {
        let last_req = match self.last_request {
            Some(last_req) => last_req,
            None => {
                return PeerStatus::Unknown;
            },
        };
        if self.nb_successive_try > 0 && now_ms > last_req && now_ms - last_req
            > BAD_PEER_TIMEOUT_MS {
            return PeerStatus::Bad;
        }
        if self.last_response.is_some() {
            return PeerStatus::Good;
        }
        PeerStatus::Questionable
    }

    /// Record that a request was just sent to this peer at `now_ms`: the
    /// unanswered count grows (saturating) and the request time is updated.
    pub fn update_last_request(&mut self, now_ms: u64)
        ensures
            final(self).id == old(self).id,
            final(self).addr == old(self).addr,
            final(self).last_request == Some(now_ms),
            final(self).last_response == old(self).last_response,
            final(self).nb_successive_try == if old(self).nb_successive_try == u64::MAX {
                u64::MAX as int
            } else {
                old(self).nb_successive_try + 1
            },
    {
        self.last_request = Some(now_ms);
        if self.nb_successive_try < u64::MAX {
            self.nb_successive_try = self.nb_successive_try + 1;
        }
    }

    /// Record that a response from this peer arrived at `now_ms`: the
    /// unanswered count resets, and a peer that was never requested counts
    /// as requested now.
    pub fn update_last_response(&mut self, now_ms: u64)
        ensures
            final(self).id == old(self).id,
            final(self).addr == old(self).addr,
            final(self).last_response == Some(now_ms),
            final(self).last_request == if old(self).last_request is None {
                Some(now_ms)
            } else {
                old(self).last_request
            },
            final(self).nb_successive_try == 0,
    {
        self.last_response = Some(now_ms);
        if self.last_request.is_none() {
            self.last_request = Some(now_ms);
        }
        self.nb_successive_try = 0;
    }
}

} // verus!
