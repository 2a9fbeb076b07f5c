use vstd::prelude::*;
use crate::bytes_util::{bytes_eq, copy_bytes};
use crate::distance::valid_id;
use crate::messages::{Envelope, Event, RpcEvent, RpcRequest, RpcResponse, WireMessage};
use crate::service::{
    find_peer, find_pending, lemma_peer_idx, lemma_peer_idx_update, lemma_pending_idx,
    peer_idx, pending_idx, ConnState, NetworkError, Peer, PendingRpc, Service,
};

verus! {

/// An envelope carrying a correlated request.
pub open spec fn env_request(e: Envelope, to: Seq<u8>, rid: u64, req: RpcRequest) -> bool {
    &&& e.to@ == to
    &&& e.msg matches WireMessage::Request(id2, r)
    &&& id2 == rid
    &&& r == req
}

/// An envelope carrying a correlated response.
pub open spec fn env_response(e: Envelope, to: Seq<u8>, rid: u64, resp: RpcResponse) -> bool {
    &&& e.to@ == to
    &&& e.msg matches WireMessage::Response(id2, r)
    &&& id2 == rid
    &&& r == resp
}

/// The event surfacing an inbound request.
pub open spec fn ev_rpc_request(e: Event, p: Seq<u8>, rid: u64, req: RpcRequest) -> bool {
    &&& e matches Event::Rpc(q, ev)
    &&& q@ == p
    &&& ev matches RpcEvent::Request(id2, r)
    &&& id2 == rid
    &&& r == req
}

/// The event surfacing a matched inbound response.
pub open spec fn ev_rpc_response(e: Event, p: Seq<u8>, rid: u64, resp: RpcResponse) -> bool {
    &&& e matches Event::Rpc(q, ev)
    &&& q@ == p
    &&& ev matches RpcEvent::Response(id2, r)
    &&& id2 == rid
    &&& r == resp
}

impl Service {
    /// Opens a correlated request towards a connected peer: assigns a fresh
    /// correlation id — one never used towards this peer while any earlier
    /// request is still pending — records the pending entry and queues the
    /// wire message. Fails exactly when the peer is not connected or this
    /// peer's id space is exhausted.
    pub fn send_request(&mut self, peer: &Vec<u8>, req: RpcRequest) -> (r: Result<
        u64,
        NetworkError,
    >)
        requires
            old(self).wf(),
            valid_id(peer@),
        ensures
            final(self).wf(),
            r is Ok <==> old(self).is_connected(peer@) && old(self).peers@[peer_idx(
                old(self).peers@,
                peer@,
            )].next_rpc_id < u64::MAX,
            r is Err ==> *final(self) == *old(self),
            r matches Ok(rid) ==> {
                &&& !old(self).pending_has(peer@, rid)
                &&& final(self).pending_has(peer@, rid)
                &&& final(self).pending@.len() == old(self).pending@.len() + 1
                &&& final(self).pending@.take(old(self).pending@.len() as int) == old(
                    self,
                ).pending@
                &&& final(self).pending@.last().peer@ == peer@
                &&& final(self).pending@.last().rpc_id == rid
                &&& final(self).outbox@.len() == old(self).outbox@.len() + 1
                &&& final(self).outbox@.take(old(self).outbox@.len() as int) == old(self).outbox@
                &&& env_request(final(self).outbox@.last(), peer@, rid, req)
            },
            forall|q: Seq<u8>| final(self).state_of(q) == old(self).state_of(q),
            final(self).events == old(self).events,
            final(self).meshes == old(self).meshes,
            final(self).subs == old(self).subs,
            final(self).seen == old(self).seen,
            final(self).table == old(self).table,
            final(self).local_id == old(self).local_id,
    {
        let ghost old_ps = self.peers@;
        let ghost old_pp = self.pending@;
        let j = match find_peer(&self.peers, peer) {
            Some(j) => j,
            None => {
                return Err(NetworkError::NotConnected);
            },
        };
        let connected = match self.peers[j].state {
            ConnState::Connected => true,
            _ => false,
        };
        if !connected {
            proof {
                lemma_peer_idx(old_ps, peer@);
            }
            return Err(NetworkError::NotConnected);
        }
        let rid = self.peers[j].next_rpc_id;
        if rid == u64::MAX {
            proof {
                lemma_peer_idx(old_ps, peer@);
            }
            return Err(NetworkError::IdsExhausted);
        }
        let updated = Peer {
            id: copy_bytes(&self.peers[j].id),
            state: ConnState::Connected,
            next_rpc_id: rid + 1,
        };
        self.peers[j] = updated;
        self.pending.push(PendingRpc { peer: copy_bytes(peer), rpc_id: rid });
        self.outbox.push(Envelope { to: copy_bytes(peer), msg: WireMessage::Request(rid, req) });
        proof {
            lemma_peer_idx(old_ps, peer@);
            lemma_pending_idx(old_pp, peer@, rid);
            // the id was not pending: every pending id towards this peer is
            // below the counter that was just handed out
            if pending_idx(old_pp, peer@, rid) >= 0 {
                assert(old(self).is_connected(peer@));
                assert(old_pp[pending_idx(old_pp, peer@, rid)].rpc_id < rid);
                assert(false);
            }
            assert forall|q: Seq<u8>| #[trigger] self.state_of(q) == old(self).state_of(q) by {
                lemma_peer_idx_update(old_ps, j as int, self.peers@[j as int], q);
                lemma_peer_idx(old_ps, q);
            }
            assert(self.pending@.take(old_pp.len() as int) =~= old_pp);
            assert(self.outbox@.take(old(self).outbox@.len() as int) =~= old(self).outbox@);
            // well-formedness: the new entry is unique and below the counter
            assert forall|i: int|
                0 <= i < self.pending@.len() implies self.is_connected(
                (#[trigger] self.pending@[i]).peer@,
            ) && self.pending@[i].rpc_id < self.peers@[peer_idx(
                self.peers@,
                self.pending@[i].peer@,
            )].next_rpc_id by {
                let q = self.pending@[i].peer@;
                lemma_peer_idx_update(old_ps, j as int, self.peers@[j as int], q);
                lemma_peer_idx(old_ps, q);
                if i < old_pp.len() {
                    assert(old(self).is_connected(q));
                } else {
                    assert(q == peer@);
                }
            }
            assert forall|i1: int, i2: int|
                0 <= i1 < i2 < self.pending@.len() implies !((#[trigger] self.pending@[i1]).peer@
                == (#[trigger] self.pending@[i2]).peer@ && self.pending@[i1].rpc_id
                == self.pending@[i2].rpc_id) by {
                if i2 == old_pp.len() as int {
                    if self.pending@[i1].peer@ == peer@ {
                        assert(old(self).is_connected(peer@));
                        assert(old_pp[i1].rpc_id < rid);
                    }
                }
            }
            lemma_pending_idx(self.pending@, peer@, rid);
            if pending_idx(self.pending@, peer@, rid) == -1 {
                assert(self.pending@[old_pp.len() as int].peer@ == peer@);
                assert(false);
            }
        }
        Ok(rid)
    }

    /// Queues a response to a previously surfaced request. The responder
    /// keeps no correlation state; the id belongs to the requesting side.
    pub fn send_response(&mut self, peer: &Vec<u8>, rid: u64, resp: RpcResponse) -> (r: Result<
        (),
        NetworkError,
    >)
        requires
            old(self).wf(),
            valid_id(peer@),
        ensures
            final(self).wf(),
            r is Ok <==> old(self).is_connected(peer@),
            r is Err ==> *final(self) == *old(self),
            r is Ok ==> final(self).outbox@.len() == old(self).outbox@.len() + 1
                && final(self).outbox@.take(old(self).outbox@.len() as int) == old(self).outbox@
                && env_response(final(self).outbox@.last(), peer@, rid, resp) && *final(self)
                == (Service { outbox: final(self).outbox, ..*old(self) }),
    {
        let j = match find_peer(&self.peers, peer) {
            Some(j) => j,
            None => {
                return Err(NetworkError::NotConnected);
            },
        };
        let connected = match self.peers[j].state {
            ConnState::Connected => true,
            _ => false,
        };
        if !connected {
            return Err(NetworkError::NotConnected);
        }
        self.outbox.push(Envelope { to: copy_bytes(peer), msg: WireMessage::Response(rid, resp) });
        proof {
            assert(self.outbox@.take(old(self).outbox@.len() as int) =~= old(self).outbox@);
        }
        Ok(())
    }

    /// Surfaces an inbound request from a connected peer to the host, which
    /// owns response policy. Requests from unconnected peers are dropped.
    pub fn on_rpc_request(&mut self, from: &Vec<u8>, rid: u64, req: RpcRequest)
        requires
            old(self).wf(),
            valid_id(from@),
        ensures
            final(self).wf(),
            old(self).is_connected(from@) ==> final(self).events@.len() == old(
                self,
            ).events@.len() + 1 && final(self).events@.take(old(self).events@.len() as int) == old(
                self,
            ).events@ && ev_rpc_request(final(self).events@.last(), from@, rid, req) && *final(self)
                == (Service { events: final(self).events, ..*old(self) }),
            !old(self).is_connected(from@) ==> *final(self) == *old(self),
            rpc_request_step(*old(self), *final(self), from@, rid, req),
    {
        let j = match find_peer(&self.peers, from) {
            Some(j) => j,
            None => {
                return ;
            },
        };
        let connected = match self.peers[j].state {
            ConnState::Connected => true,
            _ => false,
        };
        if !connected {
            return ;
        }
        self.events.push(Event::Rpc(copy_bytes(from), RpcEvent::Request(rid, req)));
        proof {
            assert(self.events@.take(old(self).events@.len() as int) =~= old(self).events@);
        }
    }

    /// Matches an inbound response against the pending table by peer and
    /// correlation id. On a match the pending entry is destroyed and exactly
    /// one event carrying the response surfaces; a response that matches no
    /// outstanding request is a protocol error and is dropped without any
    /// effect, and never surfaces as a matched event.
    pub fn on_rpc_response(&mut self, from: &Vec<u8>, rid: u64, resp: RpcResponse)
        requires
            old(self).wf(),
            valid_id(from@),
        ensures
            final(self).wf(),
            old(self).is_connected(from@) && old(self).pending_has(from@, rid) ==> {
                &&& final(self).events@.len() == old(self).events@.len() + 1
                &&& final(self).events@.take(old(self).events@.len() as int) == old(self).events@
                &&& ev_rpc_response(final(self).events@.last(), from@, rid, resp)
                &&& !final(self).pending_has(from@, rid)
                &&& forall|q: Seq<u8>, id2: u64|
                    !(q == from@ && id2 == rid) ==> (#[trigger] final(self).pending_has(q, id2))
                        == old(self).pending_has(q, id2)
                &&& final(self).outbox == old(self).outbox
                &&& final(self).meshes == old(self).meshes
                &&& final(self).subs == old(self).subs
                &&& final(self).seen == old(self).seen
                &&& final(self).peers == old(self).peers
                &&& final(self).table == old(self).table
            },
            !(old(self).is_connected(from@) && old(self).pending_has(from@, rid)) ==> *final(self)
                == *old(self),
            rpc_response_step(*old(self), *final(self), from@, rid, resp),
    {
        let ghost old_pp = self.pending@;
        let j = match find_peer(&self.peers, from) {
            Some(j) => j,
            None => {
                proof {
                    if old(self).pending_has(from@, rid) {
                        lemma_pending_idx(old_pp, from@, rid);
                        assert(old(self).is_connected(from@));
                    }
                }
                return ;
            },
        };
        let connected = match self.peers[j].state {
            ConnState::Connected => true,
            _ => false,
        };
        if !connected {
            proof {
                lemma_peer_idx(self.peers@, from@);
                if old(self).pending_has(from@, rid) {
                    lemma_pending_idx(old_pp, from@, rid);
                    assert(old(self).is_connected(from@));
                }
            }
            return ;
        }
        let k = match find_pending(&self.pending, from, rid) {
            Some(k) => k,
            None => {
                return ;
            },
        };
        proof {
            lemma_pending_idx(old_pp, from@, rid);
        }
        self.pending.remove(k);
        self.events.push(Event::Rpc(copy_bytes(from), RpcEvent::Response(rid, resp)));
        proof {
            let post_pp = self.pending@;
            assert(post_pp == old_pp.remove(k as int));
            assert(self.events@.take(old(self).events@.len() as int) =~= old(self).events@);
            assert(forall|i: int| 0 <= i < k ==> post_pp[i] == old_pp[i]);
            assert(forall|i: int| k <= i < post_pp.len() ==> post_pp[i] == old_pp[i + 1]);
            assert(old_pp[k as int].peer@ == from@ && old_pp[k as int].rpc_id == rid);
            // the removed pair is gone
            lemma_pending_idx(post_pp, from@, rid);
            if pending_idx(post_pp, from@, rid) >= 0 {
                let w = pending_idx(post_pp, from@, rid);
                if w < k {
                    assert(old_pp[w].peer@ == from@ && old_pp[w].rpc_id == rid);
                } else {
                    assert(old_pp[w + 1].peer@ == from@ && old_pp[w + 1].rpc_id == rid);
                }
                assert(false);
            }
            // every other pair is untouched
            assert forall|q: Seq<u8>, id2: u64| !(q == from@ && id2 == rid) implies (#[trigger]
            self.pending_has(q, id2)) == old(self).pending_has(q, id2) by {
                lemma_pending_idx(post_pp, q, id2);
                lemma_pending_idx(old_pp, q, id2);
                if pending_idx(old_pp, q, id2) >= 0 {
                    let w = pending_idx(old_pp, q, id2);
                    assert(w != k);
                    if pending_idx(post_pp, q, id2) == -1 {
                        if w < k {
                            assert(post_pp[w].peer@ == q && post_pp[w].rpc_id == id2);
                        } else {
                            assert(post_pp[w - 1].peer@ == q && post_pp[w - 1].rpc_id == id2);
                        }
                        assert(false);
                    }
                }
                if pending_idx(post_pp, q, id2) >= 0 && pending_idx(old_pp, q, id2) == -1 {
                    let w = pending_idx(post_pp, q, id2);
                    if w < k {
                        assert(old_pp[w].peer@ == q && old_pp[w].rpc_id == id2);
                    } else {
                        assert(old_pp[w + 1].peer@ == q && old_pp[w + 1].rpc_id == id2);
                    }
                    assert(false);
                }
            }
            // well-formedness survives the removal
            assert forall|i: int|
                0 <= i < post_pp.len() implies self.is_connected((#[trigger] post_pp[i]).peer@)
                && post_pp[i].rpc_id < self.peers@[peer_idx(self.peers@, post_pp[i].peer@)]
                .next_rpc_id by {
                if i < k {
                    assert(post_pp[i] == old_pp[i]);
                } else {
                    assert(post_pp[i] == old_pp[i + 1]);
                }
            }
            assert forall|i1: int, i2: int|
                0 <= i1 < i2 < post_pp.len() implies !((#[trigger] post_pp[i1]).peer@ == (
            #[trigger] post_pp[i2]).peer@ && post_pp[i1].rpc_id == post_pp[i2].rpc_id) by {
                let a: int = if i1 < k {
                    i1
                } else {
                    i1 + 1
                };
                let b: int = if i2 < k {
                    i2
                } else {
                    i2 + 1
                };
                assert(post_pp[i1] == old_pp[a]);
                assert(post_pp[i2] == old_pp[b]);
            }
        }
    }
}

impl Service {
    /// Cancels an outstanding request: the pending entry is removed without
    /// affecting the connection, and no event surfaces. Hosts layering their
    /// own timeouts call this; a later response with this id is then an
    /// unmatched protocol error and is dropped. Returns whether an entry was
    /// removed.
    pub fn cancel_request(&mut self, peer: &Vec<u8>, rid: u64) -> (r: bool)
        requires
            old(self).wf(),
        ensures
            final(self).wf(),
            r == old(self).pending_has(peer@, rid),
            !final(self).pending_has(peer@, rid),
            forall|q: Seq<u8>, id2: u64|
                !(q == peer@ && id2 == rid) ==> (#[trigger] final(self).pending_has(q, id2))
                    == old(self).pending_has(q, id2),
            !r ==> *final(self) == *old(self),
            final(self).events == old(self).events,
            final(self).outbox == old(self).outbox,
            final(self).peers == old(self).peers,
            final(self).meshes == old(self).meshes,
            final(self).subs == old(self).subs,
            final(self).seen == old(self).seen,
            final(self).table == old(self).table,
    {
        let ghost old_pp = self.pending@;
        let k = match find_pending(&self.pending, peer, rid) {
            Some(k) => k,
            None => {
                return false;
            },
        };
        proof {
            lemma_pending_idx(old_pp, peer@, rid);
        }
        self.pending.remove(k);
        proof {
            let post_pp = self.pending@;
            assert(post_pp == old_pp.remove(k as int));
            assert(forall|i: int| 0 <= i < k ==> post_pp[i] == old_pp[i]);
            assert(forall|i: int| k <= i < post_pp.len() ==> post_pp[i] == old_pp[i + 1]);
            assert(old_pp[k as int].peer@ == peer@ && old_pp[k as int].rpc_id == rid);
            lemma_pending_idx(post_pp, peer@, rid);
            if pending_idx(post_pp, peer@, rid) >= 0 {
                let w = pending_idx(post_pp, peer@, rid);
                if w < k {
                    assert(old_pp[w].peer@ == peer@ && old_pp[w].rpc_id == rid);
                } else {
                    assert(old_pp[w + 1].peer@ == peer@ && old_pp[w + 1].rpc_id == rid);
                }
                assert(false);
            }
            assert forall|q: Seq<u8>, id2: u64| !(q == peer@ && id2 == rid) implies (#[trigger]
            self.pending_has(q, id2)) == old(self).pending_has(q, id2) by {
                lemma_pending_idx(post_pp, q, id2);
                lemma_pending_idx(old_pp, q, id2);
                if pending_idx(old_pp, q, id2) >= 0 {
                    let w = pending_idx(old_pp, q, id2);
                    assert(w != k);
                    if pending_idx(post_pp, q, id2) == -1 {
                        if w < k {
                            assert(post_pp[w].peer@ == q && post_pp[w].rpc_id == id2);
                        } else {
                            assert(post_pp[w - 1].peer@ == q && post_pp[w - 1].rpc_id == id2);
                        }
                        assert(false);
                    }
                }
                if pending_idx(post_pp, q, id2) >= 0 && pending_idx(old_pp, q, id2) == -1 {
                    let w = pending_idx(post_pp, q, id2);
                    if w < k {
                        assert(old_pp[w].peer@ == q && old_pp[w].rpc_id == id2);
                    } else {
                        assert(old_pp[w + 1].peer@ == q && old_pp[w + 1].rpc_id == id2);
                    }
                    assert(false);
                }
            }
            assert forall|i: int|
                0 <= i < post_pp.len() implies self.is_connected((#[trigger] post_pp[i]).peer@)
                && post_pp[i].rpc_id < self.peers@[peer_idx(self.peers@, post_pp[i].peer@)]
                .next_rpc_id by {
                if i < k {
                    assert(post_pp[i] == old_pp[i]);
                } else {
                    assert(post_pp[i] == old_pp[i + 1]);
                }
            }
            assert forall|i1: int, i2: int|
                0 <= i1 < i2 < post_pp.len() implies !((#[trigger] post_pp[i1]).peer@ == (
            #[trigger] post_pp[i2]).peer@ && post_pp[i1].rpc_id == post_pp[i2].rpc_id) by {
                let a: int = if i1 < k {
                    i1
                } else {
                    i1 + 1
                };
                let b: int = if i2 < k {
                    i2
                } else {
                    i2 + 1
                };
                assert(post_pp[i1] == old_pp[a]);
                assert(post_pp[i2] == old_pp[b]);
            }
        }
        true
    }
}

/// What surfacing an inbound request does, in full: the contract of
/// `on_rpc_request` between two service states.
pub open spec fn rpc_request_step(pre: Service, post: Service, from: Seq<u8>, rid: u64, req: RpcRequest) -> bool {
    &&& (pre.is_connected(from) ==> post.events@.len() == pre.events@.len() + 1
        && post.events@.take(pre.events@.len() as int) == pre.events@ && ev_rpc_request(
        post.events@.last(),
        from,
        rid,
        req,
    ) && post == (Service { events: post.events, ..pre }))
    &&& (!pre.is_connected(from) ==> post == pre)
}

/// What matching an inbound response does, in full: the contract of
/// `on_rpc_response` between two service states.
pub open spec fn rpc_response_step(pre: Service, post: Service, from: Seq<u8>, rid: u64, resp: RpcResponse) -> bool {
    &&& (pre.is_connected(from) && pre.pending_has(from, rid) ==> {
        &&& post.events@.len() == pre.events@.len() + 1
        &&& post.events@.take(pre.events@.len() as int) == pre.events@
        &&& ev_rpc_response(post.events@.last(), from, rid, resp)
        &&& !post.pending_has(from, rid)
        &&& forall|q: Seq<u8>, id2: u64|
            !(q == from && id2 == rid) ==> (#[trigger] post.pending_has(q, id2))
                == pre.pending_has(q, id2)
        &&& post.outbox == pre.outbox
        &&& post.meshes == pre.meshes
        &&& post.subs == pre.subs
        &&& post.seen == pre.seen
        &&& post.peers == pre.peers
        &&& post.table == pre.table
    })
    &&& (!(pre.is_connected(from) && pre.pending_has(from, rid)) ==> post == pre)
}

} // verus!
