use vstd::prelude::*;
use crate::bytes_util::{bytes_eq, copy_bytes};
use crate::distance::valid_id;
use crate::messages::{copy_message, message_id, message_id_spec, Envelope, Event, PubsubMessage,
    WireMessage};
use crate::service::{
    bytes_idx, env_subscribe, env_unsubscribe, ev_peer_subscribed, find_bytes, find_mesh,
    find_peer,
    lemma_bytes_idx, lemma_bytes_idx_push, lemma_mesh_idx, lemma_mesh_idx_same_topics,
    lemma_remove_refs_distinct, lemma_remove_refs_membership, lemma_remove_refs_push, mesh_idx,
    remove_refs, ConnState, Mesh, NetworkError, Service, SEEN_CAP,
};

verus! {

/// Topic namespace this node recognizes: the bytes of `/eth2/`. Topics are
/// structured `/<namespace>/<message-kind>/<encoding>`; gossip on any other
/// namespace is ignored without error.
pub open spec fn eth2_prefix() -> Seq<u8> {
    seq![47u8, 101u8, 116u8, 104u8, 50u8, 47u8]
}

/// Whether a topic lies in the recognized namespace.
pub open spec fn recognized_topic(t: Seq<u8>) -> bool {
    t.len() >= 6 && t.take(6) == eth2_prefix()
}

/// Checks a topic against the recognized namespace.
pub fn is_recognized_topic(t: &Vec<u8>) -> (r: bool)
    ensures
        r == recognized_topic(t@),
{
    if t.len() < 6 {
        return false;
    }
    let r = t[0] == 47 && t[1] == 101 && t[2] == 116 && t[3] == 104 && t[4] == 50 && t[5] == 47;
    proof {
        if r {
            assert(t@.take(6) =~= eth2_prefix());
        } else {
            assert(t@.take(6)[0] == t@[0] && t@.take(6)[1] == t@[1] && t@.take(6)[2] == t@[2]
                && t@.take(6)[3] == t@[3] && t@.take(6)[4] == t@[4] && t@.take(6)[5] == t@[5]);
        }
    }
    r
}

/// An envelope propagating a gossip message to one mesh peer.
pub open spec fn env_gossip(e: Envelope, to: Seq<u8>, t: Seq<u8>, mid: Seq<u8>) -> bool {
    &&& e.to@ == to
    &&& e.msg matches WireMessage::Gossip { topic, message }
    &&& topic@ == t
    &&& message_id_spec(message) == mid
}

/// The event surfacing a first-seen gossip message to the host.
pub open spec fn ev_pubsub(e: Event, src: Seq<u8>, t: Seq<u8>, mid: Seq<u8>) -> bool {
    &&& e matches Event::PubsubMessage { source, topic, message }
    &&& source@ == src
    &&& topic@ == t
    &&& message_id_spec(message) == mid
}

/// The envelope announces this topic's subscription to some connected peer.
pub open spec fn announced_to_connected(s: Service, e: Envelope, t: Seq<u8>) -> bool {
    exists|q: Seq<u8>| s.is_connected(q) && env_subscribe(e, q, t)
}

/// Somewhere after position `lo` the outbox announces the topic to `q`.
pub open spec fn got_announcement(out: Seq<Envelope>, lo: int, q: Seq<u8>, t: Seq<u8>) -> bool {
    exists|k: int| lo <= k < out.len() && env_subscribe(#[trigger] out[k], q, t)
}

/// Somewhere after position `lo` the outbox withdraws the topic towards `q`.
pub open spec fn got_withdrawal(out: Seq<Envelope>, lo: int, q: Seq<u8>, t: Seq<u8>) -> bool {
    exists|k: int| lo <= k < out.len() && env_unsubscribe(#[trigger] out[k], q, t)
}

/// An announcement already queued stays queued when the outbox only grows.
pub proof fn lemma_got_announcement_extend(
    out1: Seq<Envelope>,
    out2: Seq<Envelope>,
    lo: int,
    q: Seq<u8>,
    t: Seq<u8>,
)
    requires
        0 <= lo,
        got_announcement(out1, lo, q, t),
        out2.len() >= out1.len(),
        forall|k: int| 0 <= k < out1.len() ==> #[trigger] out2[k] == out1[k],
    ensures
        got_announcement(out2, lo, q, t),
{
    let k = choose|k: int| lo <= k < out1.len() && env_subscribe(#[trigger] out1[k], q, t);
    assert(env_subscribe(out2[k], q, t));
}

/// The envelope re-announces, to a connected peer, a subscribed topic whose
/// mesh sits below the low watermark.
pub open spec fn refill_announcement(s: Service, e: Envelope) -> bool {
    exists|t: Seq<u8>, q: Seq<u8>|
        s.is_connected(q) && s.subscribed(t) && s.mesh_peers(t).len() < s.mesh_low
            && env_subscribe(e, q, t)
}

impl Service {
    /// Subscribes the node to a topic and announces the subscription to
    /// every connected peer. Subscribing to an already-subscribed topic is a
    /// no-op: no state changes, nothing is sent, no event is produced.
    /// Returns whether the subscription is new.
    #[verifier::loop_isolation(false)]
    pub fn subscribe(&mut self, topic: &Vec<u8>) -> (r: bool)
        requires
            old(self).wf(),
        ensures
            final(self).wf(),
            r == !old(self).subscribed(topic@),
            final(self).subscribed(topic@),
            old(self).subscribed(topic@) ==> *final(self) == *old(self),
            !old(self).subscribed(topic@) ==> {
                &&& final(self).subs@.len() == old(self).subs@.len() + 1
                &&& final(self).subs@.take(old(self).subs@.len() as int) == old(self).subs@
                &&& final(self).subs@.last()@ == topic@
                &&& final(self).meshes@.len() == old(self).meshes@.len() + 1
                &&& final(self).meshes@.take(old(self).meshes@.len() as int) == old(self).meshes@
                &&& final(self).meshes@.last().topic@ == topic@
                &&& final(self).meshes@.last().peers@.len() == 0
                &&& final(self).outbox@.take(old(self).outbox@.len() as int) == old(self).outbox@
                &&& forall|k: int|
                    old(self).outbox@.len() <= k < final(self).outbox@.len()
                        ==> announced_to_connected(
                        *old(self),
                        #[trigger] final(self).outbox@[k],
                        topic@,
                    )
                &&& forall|i: int|
                    0 <= i < old(self).peers@.len() && (#[trigger] old(self).peers@[i]).state
                        is Connected ==> got_announcement(
                        final(self).outbox@,
                        old(self).outbox@.len() as int,
                        old(self).peers@[i].id@,
                        topic@,
                    )
                &&& final(self).events == old(self).events
                &&& final(self).peers == old(self).peers
                &&& final(self).pending == old(self).pending
                &&& final(self).seen == old(self).seen
                &&& final(self).table == old(self).table
                &&& final(self).local_id == old(self).local_id
                &&& final(self).local_record == old(self).local_record
                &&& final(self).mesh_high == old(self).mesh_high
                &&& final(self).mesh_low == old(self).mesh_low
            },
    {
        let ghost old_subs = self.subs@;
        let ghost old_ms = self.meshes@;
        if find_bytes(&self.subs, topic).is_some() {
            return false;
        }
        self.subs.push(copy_bytes(topic));
        self.meshes.push(Mesh { topic: copy_bytes(topic), peers: Vec::new() });
        proof {
            lemma_bytes_idx(old_subs, topic@);
            lemma_bytes_idx_push(old_subs, self.subs@.last(), topic@);
            assert(self.subscribed(topic@));
            assert(self.subs@.take(old_subs.len() as int) =~= old_subs);
            assert(self.meshes@.take(old_ms.len() as int) =~= old_ms);
            // uniqueness of subscriptions and meshes, and mesh topics stay
            // subscribed
            assert forall|i: int, j: int|
                #![trigger self.subs@[i], self.subs@[j]]
                0 <= i < j < self.subs@.len() implies self.subs@[i]@ != self.subs@[j]@ by {
                if j == old_subs.len() as int {
                    lemma_bytes_idx(old_subs, old_subs[i]@);
                    if old_subs[i]@ == topic@ {
                        assert(bytes_idx(old_subs, topic@) >= 0);
                    }
                }
            }
            assert forall|i: int, j: int|
                #![trigger self.meshes@[i], self.meshes@[j]]
                0 <= i < j < self.meshes@.len() implies self.meshes@[i].topic@
                != self.meshes@[j].topic@ by {
                if j == old_ms.len() as int {
                    assert(bytes_idx(old_subs, old(self).meshes@[i].topic@) >= 0);
                    lemma_bytes_idx(old_subs, old(self).meshes@[i].topic@);
                    if old(self).meshes@[i].topic@ == topic@ {
                        assert(bytes_idx(old_subs, topic@) >= 0);
                    }
                }
            }
            assert forall|mi: int|
                0 <= mi < self.meshes@.len() implies bytes_idx(
                self.subs@,
                (#[trigger] self.meshes@[mi]).topic@,
            ) >= 0 && self.meshes@[mi].peers@.len() <= self.mesh_high by {
                if mi < old_ms.len() {
                    lemma_bytes_idx(old_subs, old_ms[mi].topic@);
                    lemma_bytes_idx_push(old_subs, self.subs@.last(), old_ms[mi].topic@);
                }
            }
        }
        let ghost mid_state = *self;
        let mut i: usize = 0;
        while i < self.peers.len()
            invariant
                i <= self.peers@.len(),
                *self == (Service { outbox: self.outbox, ..mid_state }),
                self.outbox@.len() >= mid_state.outbox@.len(),
                forall|k: int|
                    0 <= k < mid_state.outbox@.len() ==> #[trigger] self.outbox@[k]
                        == mid_state.outbox@[k],
                forall|k: int|
                    mid_state.outbox@.len() <= k < self.outbox@.len() ==> announced_to_connected(
                        mid_state,
                        #[trigger] self.outbox@[k],
                        topic@,
                    ),
                forall|pi: int|
                    0 <= pi < i && (#[trigger] self.peers@[pi]).state is Connected
                        ==> got_announcement(
                        self.outbox@,
                        mid_state.outbox@.len() as int,
                        self.peers@[pi].id@,
                        topic@,
                    ),
            decreases self.peers@.len() - i,
        {
            let connected = match self.peers[i].state {
                ConnState::Connected => true,
                _ => false,
            };
            let ghost pre_push = self.outbox@;
            if connected {
                let env = Envelope {
                    to: copy_bytes(&self.peers[i].id),
                    msg: WireMessage::Subscribe(copy_bytes(topic)),
                };
                self.outbox.push(env);
                proof {
                    let q = self.peers@[i as int].id@;
                    assert forall|jj: int| 0 <= jj < i implies mid_state.peers@[jj].id@ != q by {
                        assert(mid_state.peers@[jj].id@ != mid_state.peers@[i as int].id@);
                    }
                    crate::service::lemma_peer_first(mid_state.peers@, q, i as int);
                    assert(mid_state.is_connected(q));
                    let last: int = self.outbox@.len() - 1;
                    assert(env_subscribe(self.outbox@[last], q, topic@));
                    assert(announced_to_connected(mid_state, self.outbox@[last], topic@));
                    assert(got_announcement(self.outbox@, mid_state.outbox@.len() as int, q,
                        topic@));
                }
            }
            proof {
                assert forall|k: int|
                    mid_state.outbox@.len() <= k < self.outbox@.len()
                        implies announced_to_connected(mid_state, self.outbox@[k], topic@) by {
                    if k < pre_push.len() {
                        assert(self.outbox@[k] == pre_push[k]);
                        assert(announced_to_connected(mid_state, pre_push[k], topic@));
                    }
                }
                assert forall|pi: int|
                    0 <= pi < i + 1 && (#[trigger] self.peers@[pi]).state is Connected
                        implies got_announcement(
                    self.outbox@,
                    mid_state.outbox@.len() as int,
                    self.peers@[pi].id@,
                    topic@,
                ) by {
                    if pi < i {
                        let qq = self.peers@[pi].id@;
                        assert(got_announcement(pre_push, mid_state.outbox@.len() as int, qq,
                            topic@));
                        let k = choose|k: int|
                            mid_state.outbox@.len() <= k < pre_push.len() && env_subscribe(
                                #[trigger] pre_push[k],
                                qq,
                                topic@,
                            );
                        assert(self.outbox@[k] == pre_push[k]);
                        assert(env_subscribe(self.outbox@[k], qq, topic@));
                    }
                }
            }
            i += 1;
        }
        proof {
            assert(self.outbox@.take(mid_state.outbox@.len() as int) =~= mid_state.outbox@);
            assert forall|k: int|
                old(self).outbox@.len() <= k < self.outbox@.len() implies announced_to_connected(
                *old(self),
                self.outbox@[k],
                topic@,
            ) by {
                assert(announced_to_connected(mid_state, self.outbox@[k], topic@));
                let q = choose|q: Seq<u8>|
                    mid_state.is_connected(q) && env_subscribe(self.outbox@[k], q, topic@);
                assert(old(self).peers@ == mid_state.peers@);
                assert(old(self).is_connected(q));
            }
        }
        true
    }

    /// Withdraws a subscription: the topic's mesh is dissolved and every
    /// connected peer is told. Unsubscribing from an unknown topic is a
    /// no-op. Returns whether a subscription was removed.
    #[verifier::loop_isolation(false)]
    pub fn unsubscribe(&mut self, topic: &Vec<u8>) -> (r: bool)
        requires
            old(self).wf(),
        ensures
            final(self).wf(),
            r == old(self).subscribed(topic@),
            !final(self).subscribed(topic@),
            !old(self).subscribed(topic@) ==> *final(self) == *old(self),
            old(self).subscribed(topic@) ==> {
                &&& final(self).subs@.len() == old(self).subs@.len() - 1
                &&& forall|t2: Seq<u8>|
                    t2 != topic@ ==> (#[trigger] final(self).subscribed(t2)) == old(
                        self,
                    ).subscribed(t2)
                &&& mesh_idx(final(self).meshes@, topic@) == -1
                &&& final(self).outbox@.take(old(self).outbox@.len() as int) == old(self).outbox@
                &&& forall|k: int|
                    old(self).outbox@.len() <= k < final(self).outbox@.len() ==> env_unsubscribe(
                        #[trigger] final(self).outbox@[k],
                        final(self).outbox@[k].to@,
                        topic@,
                    )
                &&& forall|i: int|
                    0 <= i < old(self).peers@.len() && (#[trigger] old(self).peers@[i]).state
                        is Connected ==> got_withdrawal(
                        final(self).outbox@,
                        old(self).outbox@.len() as int,
                        old(self).peers@[i].id@,
                        topic@,
                    )
                &&& final(self).events == old(self).events
                &&& final(self).peers == old(self).peers
                &&& final(self).pending == old(self).pending
                &&& final(self).seen == old(self).seen
                &&& final(self).table == old(self).table
                &&& final(self).local_id == old(self).local_id
                &&& final(self).local_record == old(self).local_record
                &&& final(self).mesh_high == old(self).mesh_high
                &&& final(self).mesh_low == old(self).mesh_low
            },
    {
        let ghost old_subs = self.subs@;
        let ghost old_ms = self.meshes@;
        let si = match find_bytes(&self.subs, topic) {
            Some(si) => si,
            None => {
                return false;
            },
        };
        self.subs.remove(si);
        let ghost new_subs = self.subs@;
        proof {
            assert(forall|i: int| 0 <= i < si ==> new_subs[i] == old_subs[i]);
            assert(forall|i: int|
                si <= i < new_subs.len() ==> new_subs[i] == old_subs[i + 1]);
            assert forall|t2: Seq<u8>| t2 != topic@ implies (bytes_idx(new_subs, t2) >= 0
                <==> bytes_idx(old_subs, t2) >= 0) by {
                lemma_bytes_idx(new_subs, t2);
                lemma_bytes_idx(old_subs, t2);
                if bytes_idx(old_subs, t2) >= 0 {
                    let w = bytes_idx(old_subs, t2);
                    if bytes_idx(new_subs, t2) == -1 {
                        if w < si {
                            assert(new_subs[w]@ == t2);
                        } else {
                            assert(new_subs[w - 1]@ == t2);
                        }
                        assert(false);
                    }
                }
                if bytes_idx(new_subs, t2) >= 0 && bytes_idx(old_subs, t2) == -1 {
                    let w = bytes_idx(new_subs, t2);
                    if w < si {
                        assert(old_subs[w]@ == t2);
                    } else {
                        assert(old_subs[w + 1]@ == t2);
                    }
                    assert(false);
                }
            }
            lemma_bytes_idx(new_subs, topic@);
            if bytes_idx(new_subs, topic@) >= 0 {
                let w = bytes_idx(new_subs, topic@);
                if w < si {
                    assert(old_subs[w]@ == topic@);
                    lemma_bytes_idx(old_subs, topic@);
                } else {
                    assert(old_subs[w + 1]@ == topic@);
                    lemma_bytes_idx(old_subs, topic@);
                }
                assert(false);
            }
            assert forall|i: int, j: int|
                #![trigger new_subs[i], new_subs[j]]
                0 <= i < j < new_subs.len() implies new_subs[i]@ != new_subs[j]@ by {
                let a: int = if i < si {
                    i
                } else {
                    i + 1
                };
                let b: int = if j < si {
                    j
                } else {
                    j + 1
                };
                assert(new_subs[i] == old_subs[a]);
                assert(new_subs[j] == old_subs[b]);
            }
        }
        let mesh_found = match find_mesh(&self.meshes, topic) {
            Some(mi) => {
                self.meshes.remove(mi);
                proof {
                    let new_ms = self.meshes@;
                    lemma_mesh_idx(old_ms, topic@);
                    assert(forall|i: int| 0 <= i < mi ==> new_ms[i] == old_ms[i]);
                    assert(forall|i: int|
                        mi <= i < new_ms.len() ==> new_ms[i] == old_ms[i + 1]);
                    lemma_mesh_idx(new_ms, topic@);
                    if mesh_idx(new_ms, topic@) >= 0 {
                        let w = mesh_idx(new_ms, topic@);
                        assert(new_ms[w].topic@ == topic@);
                        if w < mi {
                            assert(old_ms[w].topic@ == topic@);
                            assert(mesh_idx(old_ms, topic@) <= w);
                        } else {
                            assert(old_ms[w + 1].topic@ == topic@);
                        }
                        assert(false);
                    }
                }
                true
            },
            None => {
                proof {
                    lemma_mesh_idx(self.meshes@, topic@);
                }
                false
            },
        };
        proof {
            let post = *self;
            let _ = mesh_found;
            assert forall|i: int, j: int|
                #![trigger post.meshes@[i], post.meshes@[j]]
                0 <= i < j < post.meshes@.len() implies post.meshes@[i].topic@
                != post.meshes@[j].topic@ by {
                if mesh_idx(old_ms, topic@) >= 0 {
                    let mi = mesh_idx(old_ms, topic@);
                    let a: int = if i < mi {
                        i
                    } else {
                        i + 1
                    };
                    let b: int = if j < mi {
                        j
                    } else {
                        j + 1
                    };
                    assert(post.meshes@[i] == old_ms[a]);
                    assert(post.meshes@[j] == old_ms[b]);
                }
            }
            assert forall|mi2: int|
                0 <= mi2 < post.meshes@.len() implies bytes_idx(
                post.subs@,
                (#[trigger] post.meshes@[mi2]).topic@,
            ) >= 0 && post.meshes@[mi2].peers@.len() <= post.mesh_high by {
                let t2 = post.meshes@[mi2].topic@;
                let prev: int = if mesh_idx(old_ms, topic@) >= 0 && mi2 >= mesh_idx(
                    old_ms,
                    topic@,
                ) {
                    mi2 + 1
                } else {
                    mi2
                };
                assert(post.meshes@[mi2] == old_ms[prev]);
                assert(bytes_idx(old_subs, t2) >= 0);
                if mesh_idx(old_ms, topic@) >= 0 {
                    lemma_mesh_idx(old_ms, topic@);
                    if t2 == topic@ {
                        assert(mesh_idx(old_ms, topic@) != prev);
                        lemma_mesh_only_match(old_ms, topic@, prev);
                    }
                }
                if t2 != topic@ {
                    lemma_bytes_idx(old_subs, t2);
                    lemma_bytes_idx(self.subs@, t2);
                }
            }
        }
        // announce the withdrawal to connected peers
        let ghost mid_state = *self;
        let mut i: usize = 0;
        while i < self.peers.len()
            invariant
                i <= self.peers@.len(),
                *self == (Service { outbox: self.outbox, ..mid_state }),
                self.outbox@.len() >= mid_state.outbox@.len(),
                forall|k: int|
                    0 <= k < mid_state.outbox@.len() ==> #[trigger] self.outbox@[k]
                        == mid_state.outbox@[k],
                forall|k: int|
                    mid_state.outbox@.len() <= k < self.outbox@.len() ==> env_unsubscribe(
                        #[trigger] self.outbox@[k],
                        self.outbox@[k].to@,
                        topic@,
                    ),
                forall|pi: int|
                    0 <= pi < i && (#[trigger] self.peers@[pi]).state is Connected
                        ==> got_withdrawal(
                        self.outbox@,
                        mid_state.outbox@.len() as int,
                        self.peers@[pi].id@,
                        topic@,
                    ),
            decreases self.peers@.len() - i,
        {
            let ghost pre_push = self.outbox@;
            let connected = match self.peers[i].state {
                ConnState::Connected => true,
                _ => false,
            };
            if connected {
                let env = Envelope {
                    to: copy_bytes(&self.peers[i].id),
                    msg: WireMessage::Unsubscribe(copy_bytes(topic)),
                };
                self.outbox.push(env);
                proof {
                    let q = self.peers@[i as int].id@;
                    let last: int = self.outbox@.len() - 1;
                    assert(env_unsubscribe(self.outbox@[last], q, topic@));
                    assert(got_withdrawal(self.outbox@, mid_state.outbox@.len() as int, q,
                        topic@));
                }
            }
            proof {
                assert forall|pi: int|
                    0 <= pi < i + 1 && (#[trigger] self.peers@[pi]).state is Connected
                        implies got_withdrawal(
                    self.outbox@,
                    mid_state.outbox@.len() as int,
                    self.peers@[pi].id@,
                    topic@,
                ) by {
                    if pi < i {
                        let qq = self.peers@[pi].id@;
                        assert(got_withdrawal(pre_push, mid_state.outbox@.len() as int, qq,
                            topic@));
                        let k = choose|k: int|
                            mid_state.outbox@.len() <= k < pre_push.len() && env_unsubscribe(
                                #[trigger] pre_push[k],
                                qq,
                                topic@,
                            );
                        assert(self.outbox@[k] == pre_push[k]);
                        assert(env_unsubscribe(self.outbox@[k], qq, topic@));
                    }
                }
            }
            i += 1;
        }
        proof {
            assert(self.outbox@.take(mid_state.outbox@.len() as int) =~= mid_state.outbox@);
        }
        true
    }
}

/// With pairwise distinct topics, the position holding `t` is the first
/// match; helper for the removal proofs.
proof fn lemma_mesh_only_match(ms: Seq<Mesh>, t: Seq<u8>, other: int)
    requires
        forall|i: int, j: int|
            #![trigger ms[i], ms[j]]
            0 <= i < j < ms.len() ==> ms[i].topic@ != ms[j].topic@,
        0 <= other < ms.len(),
        ms[other].topic@ == t,
    ensures
        mesh_idx(ms, t) == other,
{
    lemma_mesh_idx(ms, t);
    let w = mesh_idx(ms, t);
    if w != other && 0 <= w < ms.len() {
        assert(ms[w].topic@ == t);
        if w < other {
            assert(ms[w].topic@ != ms[other].topic@);
        } else {
            assert(ms[other].topic@ != ms[w].topic@);
        }
    }
}

impl Service {
    /// Publishes a message on a subscribed topic: derives its content
    /// identifier, records it in the deduplication set, and queues one copy
    /// to every peer currently in the topic's mesh, in mesh order. The
    /// publisher does not deliver the message to itself.
    #[verifier::loop_isolation(false)]
    pub fn publish(&mut self, topic: &Vec<u8>, message: PubsubMessage) -> (r: Result<
        (),
        NetworkError,
    >)
        requires
            old(self).wf(),
        ensures
            final(self).wf(),
            r is Ok <==> old(self).subscribed(topic@),
            r is Err ==> *final(self) == *old(self) && (r matches Err(e) && e is NotSubscribed),
            r is Ok ==> {
                &&& final(self).seen_has(message_id_spec(message))
                &&& final(self).outbox@.len() == old(self).outbox@.len() + old(self).mesh_peers(
                    topic@,
                ).len()
                &&& final(self).outbox@.take(old(self).outbox@.len() as int) == old(self).outbox@
                &&& forall|i: int|
                    0 <= i < old(self).mesh_peers(topic@).len() ==> env_gossip(
                        #[trigger] final(self).outbox@[old(self).outbox@.len() + i],
                        old(self).mesh_peers(topic@)[i]@,
                        topic@,
                        message_id_spec(message),
                    )
                &&& final(self).events == old(self).events
                &&& final(self).meshes == old(self).meshes
                &&& final(self).subs == old(self).subs
                &&& final(self).peers == old(self).peers
                &&& final(self).pending == old(self).pending
                &&& final(self).table == old(self).table
            },
    {
        if find_bytes(&self.subs, topic).is_none() {
            return Err(NetworkError::NotSubscribed);
        }
        let ghost mid = message_id_spec(message);
        let id_vec = message_id(&message);
        let ghost old_seen = self.seen@;
        match find_bytes(&self.seen, &id_vec) {
            Some(_) => {
                proof {
                    lemma_bytes_idx(old_seen, mid);
                }
            },
            None => {
                if self.seen.len() >= SEEN_CAP {
                    self.seen.remove(0);
                }
                let ghost trimmed = self.seen@;
                self.seen.push(id_vec);
                proof {
                    lemma_bytes_idx(trimmed, mid);
                    lemma_bytes_idx_push(trimmed, self.seen@.last(), mid);
                }
            },
        }
        let ghost pre_out = self.outbox@;
        let ghost targets = old(self).mesh_peers(topic@);
        let mi = match find_mesh(&self.meshes, topic) {
            Some(mi) => mi,
            None => {
                proof {
                    assert(targets =~= Seq::<Vec<u8>>::empty());
                    assert(self.outbox@.take(pre_out.len() as int) =~= pre_out);
                }
                return Ok(());
            },
        };
        let mut j: usize = 0;
        let ghost mid_state = *self;
        while j < self.meshes[mi].peers.len()
            invariant
                mi < self.meshes@.len(),
                j <= self.meshes@[mi as int].peers@.len(),
                *self == (Service { outbox: self.outbox, ..mid_state }),
                targets == self.meshes@[mi as int].peers@,
                self.outbox@.len() == pre_out.len() + j,
                self.outbox@.take(pre_out.len() as int) == pre_out,
                forall|ii: int|
                    0 <= ii < j ==> env_gossip(
                        #[trigger] self.outbox@[pre_out.len() + ii],
                        targets[ii]@,
                        topic@,
                        mid,
                    ),
            decreases self.meshes@[mi as int].peers@.len() - j,
        {
            let env = Envelope {
                to: copy_bytes(&self.meshes[mi].peers[j]),
                msg: WireMessage::Gossip { topic: copy_bytes(topic), message: copy_message(
                    &message,
                ) },
            };
            self.outbox.push(env);
            proof {
                assert(self.outbox@.take(pre_out.len() as int) =~= pre_out);
            }
            j += 1;
        }
        Ok(())
    }

    /// Handles a peer's subscription announcement. On a recognized topic the
    /// connected peer joins the topic's mesh if the node subscribes to the
    /// topic, the peer is not yet a member and the mesh is below the high
    /// watermark; a `PeerSubscribed` event then surfaces. Announcing an
    /// existing membership is a no-op: no duplicate entry, no duplicate
    /// event. Unrecognized topics are ignored without error.
    pub fn handle_subscribe(&mut self, from: &Vec<u8>, topic: &Vec<u8>)
        requires
            old(self).wf(),
            valid_id(from@),
        ensures
            final(self).wf(),
            !(old(self).is_connected(from@) && recognized_topic(topic@) && mesh_idx(
                old(self).meshes@,
                topic@,
            ) >= 0 && !old(self).in_mesh(topic@, from@) && old(self).mesh_peers(topic@).len() < old(
                self,
            ).mesh_high) ==> *final(self) == *old(self),
            old(self).is_connected(from@) && recognized_topic(topic@) && mesh_idx(
                old(self).meshes@,
                topic@,
            ) >= 0 && !old(self).in_mesh(topic@, from@) && old(self).mesh_peers(topic@).len() < old(
                self,
            ).mesh_high ==> {
                &&& final(self).in_mesh(topic@, from@)
                &&& final(self).mesh_peers(topic@).len() == old(self).mesh_peers(topic@).len() + 1
                &&& final(self).mesh_peers(topic@).take(old(self).mesh_peers(topic@).len() as int)
                    == old(self).mesh_peers(topic@)
                &&& final(self).mesh_peers(topic@).last()@ == from@
                &&& forall|t2: Seq<u8>|
                    t2 != topic@ ==> (#[trigger] final(self).mesh_peers(t2)) == old(
                        self,
                    ).mesh_peers(t2)
                &&& final(self).events@.len() == old(self).events@.len() + 1
                &&& final(self).events@.take(old(self).events@.len() as int) == old(self).events@
                &&& ev_peer_subscribed(final(self).events@.last(), from@, topic@)
                &&& final(self).outbox == old(self).outbox
                &&& final(self).subs == old(self).subs
                &&& final(self).peers == old(self).peers
                &&& final(self).pending == old(self).pending
                &&& final(self).seen == old(self).seen
                &&& final(self).table == old(self).table
            },
            subscribe_announce_step(*old(self), *final(self), from@, topic@),
    {
        let connected = match find_peer(&self.peers, from) {
            Some(j) => match self.peers[j].state {
                ConnState::Connected => true,
                _ => false,
            },
            None => false,
        };
        if !connected {
            return ;
        }
        if !is_recognized_topic(topic) {
            return ;
        }
        let ghost old_ms = self.meshes@;
        let mi = match find_mesh(&self.meshes, topic) {
            Some(mi) => mi,
            None => {
                return ;
            },
        };
        let ghost old_mesh = self.meshes@[mi as int].peers@;
        if find_bytes(&self.meshes[mi].peers, from).is_some() {
            proof {
                lemma_bytes_idx(old_mesh, from@);
            }
            return ;
        }
        if self.meshes[mi].peers.len() >= self.mesh_high {
            return ;
        }
        self.meshes[mi].peers.push(copy_bytes(from));
        self.events.push(Event::PeerSubscribed(copy_bytes(from), copy_bytes(topic)));
        proof {
            let post = *self;
            assert(post.meshes@[mi as int].peers@ == old_mesh.push(post.meshes@[mi as int].peers@
                .last()));
            assert(post.events@.take(old(self).events@.len() as int) =~= old(self).events@);
            lemma_bytes_idx(old_mesh, from@);
            lemma_bytes_idx_push(old_mesh, post.meshes@[mi as int].peers@.last(), from@);
            assert(forall|i: int|
                0 <= i < post.meshes@.len() ==> (#[trigger] post.meshes@[i]).topic@
                    == old_ms[i].topic@);
            lemma_mesh_idx_same_topics(post.meshes@, old_ms, topic@);
            assert(post.in_mesh(topic@, from@));
            assert(post.mesh_peers(topic@).take(old_mesh.len() as int) =~= old_mesh);
            assert forall|t2: Seq<u8>| t2 != topic@ implies (#[trigger] post.mesh_peers(t2))
                == old(self).mesh_peers(t2) by {
                lemma_mesh_idx_same_topics(post.meshes@, old_ms, t2);
                lemma_mesh_idx(old_ms, t2);
                if mesh_idx(old_ms, t2) >= 0 {
                    assert(mesh_idx(old_ms, t2) != mi as int);
                }
            }
            // well-formedness of the one changed mesh
            assert forall|mi2: int, j1: int, j2: int|
                #![trigger post.meshes@[mi2].peers@[j1], post.meshes@[mi2].peers@[j2]]
                0 <= mi2 < post.meshes@.len() && 0 <= j1 < j2 < post.meshes@[mi2].peers@.len()
                    implies post.meshes@[mi2].peers@[j1]@ != post.meshes@[mi2].peers@[j2]@ by {
                if mi2 == mi as int && j2 == old_mesh.len() as int {
                    if old_mesh[j1]@ == from@ {
                        crate::service::lemma_bytes_first(old_mesh, from@, j1);
                    }
                }
            }
        }
    }

    /// Handles a peer's withdrawal announcement: the peer leaves the
    /// topic's mesh. Nothing surfaces to the host.
    pub fn handle_unsubscribe(&mut self, from: &Vec<u8>, topic: &Vec<u8>)
        requires
            old(self).wf(),
            valid_id(from@),
        ensures
            final(self).wf(),
            !final(self).in_mesh(topic@, from@) || mesh_idx(old(self).meshes@, topic@) == -1,
            forall|t2: Seq<u8>, q: Seq<u8>|
                !(t2 == topic@ && q == from@) && mesh_idx(old(self).meshes@, topic@) >= 0 ==> (
                #[trigger] final(self).in_mesh(t2, q)) == old(self).in_mesh(t2, q),
            mesh_idx(old(self).meshes@, topic@) == -1 ==> *final(self) == *old(self),
            final(self).events == old(self).events,
            final(self).outbox == old(self).outbox,
            final(self).subs == old(self).subs,
            final(self).peers == old(self).peers,
            final(self).pending == old(self).pending,
            final(self).seen == old(self).seen,
            final(self).table == old(self).table,
            unsubscribe_announce_step(*old(self), *final(self), from@, topic@),
    {
        let ghost old_ms = self.meshes@;
        let mi = match find_mesh(&self.meshes, topic) {
            Some(mi) => mi,
            None => {
                return ;
            },
        };
        let ghost old_mesh = self.meshes@[mi as int].peers@;
        crate::service::retain_not_peer(&mut self.meshes[mi].peers, from);
        proof {
            let post = *self;
            assert(post.meshes@[mi as int].peers@ == remove_refs(old_mesh, from@));
            lemma_remove_refs_membership(old_mesh, from@, from@);
            lemma_remove_refs_distinct(old_mesh, from@);
            assert(forall|i: int|
                0 <= i < post.meshes@.len() ==> (#[trigger] post.meshes@[i]).topic@
                    == old_ms[i].topic@);
            lemma_mesh_idx_same_topics(post.meshes@, old_ms, topic@);
            assert(!post.in_mesh(topic@, from@));
            // membership of every other pair is untouched, and well-formedness
            assert forall|mi2: int, ji: int|
                #![trigger post.meshes@[mi2].peers@[ji]]
                0 <= mi2 < post.meshes@.len() && 0 <= ji < post.meshes@[mi2].peers@.len()
                    implies post.is_connected(post.meshes@[mi2].peers@[ji]@) by {
                if mi2 == mi as int {
                    let q = post.meshes@[mi2].peers@[ji]@;
                    lemma_remove_refs_membership(old_mesh, from@, q);
                    lemma_bytes_idx(remove_refs(old_mesh, from@), q);
                    lemma_bytes_idx(old_mesh, q);
                }
            }
            assert forall|t2: Seq<u8>, q: Seq<u8>| !(t2 == topic@ && q == from@) implies (
            #[trigger] post.in_mesh(t2, q)) == old(self).in_mesh(t2, q) by {
                lemma_mesh_idx_same_topics(post.meshes@, old_ms, t2);
                lemma_mesh_idx(old_ms, t2);
                if mesh_idx(old_ms, t2) == mi as int {
                    lemma_remove_refs_membership(old_mesh, from@, q);
                }
            }
        }
    }

    /// Handles an inbound gossip message from a connected peer. A message
    /// whose identifier is already in the deduplication set is dropped
    /// silently, which is what breaks forwarding loops. A first-seen message
    /// on a recognized, subscribed topic is recorded, surfaced to the host
    /// exactly once, and forwarded to every mesh peer of the topic except
    /// the sender. Everything else is ignored without effect.
    #[verifier::loop_isolation(false)]
    pub fn handle_gossip(&mut self, from: &Vec<u8>, topic: &Vec<u8>, message: PubsubMessage)
        requires
            old(self).wf(),
            valid_id(from@),
        ensures
            final(self).wf(),
            !(old(self).is_connected(from@) && recognized_topic(topic@) && old(self).subscribed(
                topic@,
            ) && !old(self).seen_has(message_id_spec(message))) ==> *final(self) == *old(self),
            old(self).is_connected(from@) && recognized_topic(topic@) && old(self).subscribed(
                topic@,
            ) && !old(self).seen_has(message_id_spec(message)) ==> {
                let mid = message_id_spec(message);
                let targets = remove_refs(old(self).mesh_peers(topic@), from@);
                &&& final(self).seen_has(mid)
                &&& final(self).events@.len() == old(self).events@.len() + 1
                &&& final(self).events@.take(old(self).events@.len() as int) == old(self).events@
                &&& ev_pubsub(final(self).events@.last(), from@, topic@, mid)
                &&& final(self).outbox@.len() == old(self).outbox@.len() + targets.len()
                &&& final(self).outbox@.take(old(self).outbox@.len() as int) == old(self).outbox@
                &&& forall|i: int|
                    0 <= i < targets.len() ==> env_gossip(
                        #[trigger] final(self).outbox@[old(self).outbox@.len() + i],
                        targets[i]@,
                        topic@,
                        mid,
                    )
                &&& final(self).meshes == old(self).meshes
                &&& final(self).subs == old(self).subs
                &&& final(self).peers == old(self).peers
                &&& final(self).pending == old(self).pending
                &&& final(self).table == old(self).table
            },
            gossip_step(*old(self), *final(self), from@, topic@, message),
    {
        let connected = match find_peer(&self.peers, from) {
            Some(j) => match self.peers[j].state {
                ConnState::Connected => true,
                _ => false,
            },
            None => false,
        };
        if !connected {
            return ;
        }
        if !is_recognized_topic(topic) {
            return ;
        }
        if find_bytes(&self.subs, topic).is_none() {
            return ;
        }
        let ghost mid = message_id_spec(message);
        let id_vec = message_id(&message);
        if find_bytes(&self.seen, &id_vec).is_some() {
            proof {
                lemma_bytes_idx(self.seen@, mid);
            }
            return ;
        }
        proof {
            lemma_bytes_idx(self.seen@, mid);
        }
        if self.seen.len() >= SEEN_CAP {
            self.seen.remove(0);
        }
        let ghost trimmed = self.seen@;
        self.seen.push(id_vec);
        proof {
            lemma_bytes_idx(trimmed, mid);
            lemma_bytes_idx_push(trimmed, self.seen@.last(), mid);
        }
        // forward to the topic's mesh, leaving out the sender
        let ghost pre_out = self.outbox@;
        let ghost mesh0 = old(self).mesh_peers(topic@);
        match find_mesh(&self.meshes, topic) {
            Some(mi) => {
                let ghost mid_state = *self;
                let mut j: usize = 0;
                while j < self.meshes[mi].peers.len()
                    invariant
                        mi < self.meshes@.len(),
                        j <= self.meshes@[mi as int].peers@.len(),
                        *self == (Service { outbox: self.outbox, ..mid_state }),
                        mesh0 == self.meshes@[mi as int].peers@,
                        self.outbox@.len() == pre_out.len() + remove_refs(
                            mesh0.take(j as int),
                            from@,
                        ).len(),
                        self.outbox@.take(pre_out.len() as int) == pre_out,
                        forall|ii: int|
                            0 <= ii < remove_refs(mesh0.take(j as int), from@).len()
                                ==> env_gossip(
                                #[trigger] self.outbox@[pre_out.len() + ii],
                                remove_refs(mesh0.take(j as int), from@)[ii]@,
                                topic@,
                                mid,
                            ),
                    decreases self.meshes@[mi as int].peers@.len() - j,
                {
                    proof {
                        assert(mesh0.take(j + 1) =~= mesh0.take(j as int).push(
                            mesh0[j as int],
                        ));
                        lemma_remove_refs_push(mesh0.take(j as int), mesh0[j as int], from@);
                    }
                    if !bytes_eq(&self.meshes[mi].peers[j], from) {
                        let env = Envelope {
                            to: copy_bytes(&self.meshes[mi].peers[j]),
                            msg: WireMessage::Gossip { topic: copy_bytes(topic), message:
                                copy_message(&message) },
                        };
                        self.outbox.push(env);
                        proof {
                            assert(self.outbox@.take(pre_out.len() as int) =~= pre_out);
                        }
                    }
                    j += 1;
                }
                proof {
                    assert(mesh0.take(mesh0.len() as int) =~= mesh0);
                }
            },
            None => {
                proof {
                    assert(mesh0 =~= Seq::<Vec<u8>>::empty());
                    assert(remove_refs(mesh0, from@) =~= Seq::<Vec<u8>>::empty());
                    assert(self.outbox@.take(pre_out.len() as int) =~= pre_out);
                }
            },
        }
        self.events.push(Event::PubsubMessage {
            source: copy_bytes(from),
            topic: copy_bytes(topic),
            message,
        });
        proof {
            assert(self.events@.take(old(self).events@.len() as int) =~= old(self).events@);
        }
    }
}

/// What handling a peer's subscription announcement does, in full: the
/// contract of `handle_subscribe` between two service states.
pub open spec fn subscribe_announce_step(pre: Service, post: Service, from: Seq<u8>, topic: Seq<u8>) -> bool {
    &&& (!(pre.is_connected(from) && recognized_topic(topic) && mesh_idx(pre.meshes@, topic) >= 0
        && !pre.in_mesh(topic, from) && pre.mesh_peers(topic).len() < pre.mesh_high) ==> post
        == pre)
    &&& (pre.is_connected(from) && recognized_topic(topic) && mesh_idx(pre.meshes@, topic) >= 0
        && !pre.in_mesh(topic, from) && pre.mesh_peers(topic).len() < pre.mesh_high ==> {
        &&& post.in_mesh(topic, from)
        &&& post.mesh_peers(topic).len() == pre.mesh_peers(topic).len() + 1
        &&& post.mesh_peers(topic).take(pre.mesh_peers(topic).len() as int) == pre.mesh_peers(
            topic,
        )
        &&& post.mesh_peers(topic).last()@ == from
        &&& forall|t2: Seq<u8>| t2 != topic ==> (#[trigger] post.mesh_peers(t2)) == pre.mesh_peers(t2)
        &&& post.events@.len() == pre.events@.len() + 1
        &&& post.events@.take(pre.events@.len() as int) == pre.events@
        &&& ev_peer_subscribed(post.events@.last(), from, topic)
        &&& post.outbox == pre.outbox
        &&& post.subs == pre.subs
        &&& post.peers == pre.peers
        &&& post.pending == pre.pending
        &&& post.seen == pre.seen
        &&& post.table == pre.table
    })
}

/// What handling a peer's withdrawal announcement does, in full: the
/// contract of `handle_unsubscribe` between two service states.
pub open spec fn unsubscribe_announce_step(pre: Service, post: Service, from: Seq<u8>, topic: Seq<u8>) -> bool {
    &&& (!post.in_mesh(topic, from) || mesh_idx(pre.meshes@, topic) == -1)
    &&& (forall|t2: Seq<u8>, q: Seq<u8>|
        !(t2 == topic && q == from) && mesh_idx(pre.meshes@, topic) >= 0 ==> (#[trigger]
        post.in_mesh(t2, q)) == pre.in_mesh(t2, q))
    &&& (mesh_idx(pre.meshes@, topic) == -1 ==> post == pre)
    &&& post.events == pre.events
    &&& post.outbox == pre.outbox
    &&& post.subs == pre.subs
    &&& post.peers == pre.peers
    &&& post.pending == pre.pending
    &&& post.seen == pre.seen
    &&& post.table == pre.table
}

/// What handling an inbound gossip message does, in full: the contract of
/// `handle_gossip` between two service states.
pub open spec fn gossip_step(pre: Service, post: Service, from: Seq<u8>, topic: Seq<u8>, message: PubsubMessage) -> bool {
    &&& (!(pre.is_connected(from) && recognized_topic(topic) && pre.subscribed(topic)
        && !pre.seen_has(message_id_spec(message))) ==> post == pre)
    &&& (pre.is_connected(from) && recognized_topic(topic) && pre.subscribed(topic)
        && !pre.seen_has(message_id_spec(message)) ==> {
        let mid = message_id_spec(message);
        let targets = remove_refs(pre.mesh_peers(topic), from);
        &&& post.seen_has(mid)
        &&& post.events@.len() == pre.events@.len() + 1
        &&& post.events@.take(pre.events@.len() as int) == pre.events@
        &&& ev_pubsub(post.events@.last(), from, topic, mid)
        &&& post.outbox@.len() == pre.outbox@.len() + targets.len()
        &&& post.outbox@.take(pre.outbox@.len() as int) == pre.outbox@
        &&& forall|i: int|
            0 <= i < targets.len() ==> env_gossip(
                #[trigger] post.outbox@[pre.outbox@.len() + i],
                targets[i]@,
                topic,
                mid,
            )
        &&& post.meshes == pre.meshes
        &&& post.subs == pre.subs
        &&& post.peers == pre.peers
        &&& post.pending == pre.pending
        &&& post.table == pre.table
    })
}

/// Gossip delivers each message at most once: after a first-seen delivery
/// the identifier is in the deduplication set, so a second delivery of any
/// message with the same content identifier — from any peer — changes
/// nothing and surfaces nothing. With `handle_gossip`'s forwarding clause
/// this is what makes a flooded mesh deliver exactly once per member.
pub proof fn lemma_gossip_delivered_once(
    s0: Service,
    s1: Service,
    s2: Service,
    from1: Seq<u8>,
    from2: Seq<u8>,
    topic: Seq<u8>,
    m1: PubsubMessage,
    m2: PubsubMessage,
)
    requires
        gossip_step(s0, s1, from1, topic, m1),
        gossip_step(s1, s2, from2, topic, m2),
        message_id_spec(m2) == message_id_spec(m1),
        s0.is_connected(from1),
        recognized_topic(topic),
        s0.subscribed(topic),
        !s0.seen_has(message_id_spec(m1)),
    ensures
        s2 == s1,
{
    assert(s1.seen_has(message_id_spec(m2)));
}

impl Service {
    /// Mesh maintenance for the low watermark: every subscribed topic whose
    /// mesh has fallen below `mesh_low` is re-announced to every connected
    /// peer, inviting peers that are not yet members to join; announcements
    /// to existing members are no-ops at the receiver. The host runs this as
    /// part of its poll cycle, typically after disconnects thin a mesh.
    #[verifier::loop_isolation(false)]
    pub fn maintain_meshes(&mut self)
        requires
            old(self).wf(),
        ensures
            final(self).wf(),
            final(self).outbox@.len() >= old(self).outbox@.len(),
            final(self).outbox@.take(old(self).outbox@.len() as int) == old(self).outbox@,
            forall|k: int|
                old(self).outbox@.len() <= k < final(self).outbox@.len() ==> refill_announcement(
                    *old(self),
                    #[trigger] final(self).outbox@[k],
                ),
            forall|mi: int, pi: int|
                0 <= mi < old(self).meshes@.len() && (#[trigger] old(self).meshes@[
                    mi
                ]).peers@.len() < old(self).mesh_low && 0 <= pi < old(self).peers@.len() && (
                #[trigger] old(self).peers@[pi]).state is Connected ==> got_announcement(
                    final(self).outbox@,
                    old(self).outbox@.len() as int,
                    old(self).peers@[pi].id@,
                    old(self).meshes@[mi].topic@,
                ),
            *final(self) == (Service { outbox: final(self).outbox, ..*old(self) }),
    {
        let ghost base = *self;
        let mut mi: usize = 0;
        while mi < self.meshes.len()
            invariant
                mi <= self.meshes@.len(),
                *self == (Service { outbox: self.outbox, ..base }),
                self.outbox@.len() >= base.outbox@.len(),
                forall|k: int|
                    0 <= k < base.outbox@.len() ==> #[trigger] self.outbox@[k]
                        == base.outbox@[k],
                forall|k: int|
                    base.outbox@.len() <= k < self.outbox@.len() ==> refill_announcement(
                        base,
                        #[trigger] self.outbox@[k],
                    ),
                forall|mi2: int, pi: int|
                    0 <= mi2 < mi && (#[trigger] base.meshes@[mi2]).peers@.len() < base.mesh_low
                        && 0 <= pi < base.peers@.len() && (#[trigger] base.peers@[pi]).state
                        is Connected ==> got_announcement(
                        self.outbox@,
                        base.outbox@.len() as int,
                        base.peers@[pi].id@,
                        base.meshes@[mi2].topic@,
                    ),
            decreases self.meshes@.len() - mi,
        {
            if self.meshes[mi].peers.len() < self.mesh_low {
                let topic = copy_bytes(&self.meshes[mi].topic);
                proof {
                    lemma_mesh_only_match(base.meshes@, topic@, mi as int);
                    assert(base.subscribed(topic@));
                    assert(base.mesh_peers(topic@).len() < base.mesh_low);
                }
                let mut pi: usize = 0;
                while pi < self.peers.len()
                    invariant
                        pi <= self.peers@.len(),
                        mi < self.meshes@.len(),
                        base.subscribed(topic@),
                        base.mesh_peers(topic@).len() < base.mesh_low,
                        *self == (Service { outbox: self.outbox, ..base }),
                        self.outbox@.len() >= base.outbox@.len(),
                        forall|k: int|
                            0 <= k < base.outbox@.len() ==> #[trigger] self.outbox@[k]
                                == base.outbox@[k],
                        forall|k: int|
                            base.outbox@.len() <= k < self.outbox@.len()
                                ==> refill_announcement(base, #[trigger] self.outbox@[k]),
                        forall|mi2: int, pi2: int|
                            0 <= mi2 < mi && (#[trigger] base.meshes@[mi2]).peers@.len()
                                < base.mesh_low && 0 <= pi2 < base.peers@.len() && (#[trigger]
                            base.peers@[pi2]).state is Connected ==> got_announcement(
                                self.outbox@,
                                base.outbox@.len() as int,
                                base.peers@[pi2].id@,
                                base.meshes@[mi2].topic@,
                            ),
                        forall|pi2: int|
                            0 <= pi2 < pi && (#[trigger] self.peers@[pi2]).state is Connected
                                ==> got_announcement(
                                self.outbox@,
                                base.outbox@.len() as int,
                                self.peers@[pi2].id@,
                                topic@,
                            ),
                    decreases self.peers@.len() - pi,
                {
                    let ghost pre_push = self.outbox@;
                    let connected = match self.peers[pi].state {
                        ConnState::Connected => true,
                        _ => false,
                    };
                    if connected {
                        let env = Envelope {
                            to: copy_bytes(&self.peers[pi].id),
                            msg: WireMessage::Subscribe(copy_bytes(&topic)),
                        };
                        self.outbox.push(env);
                        proof {
                            let q = self.peers@[pi as int].id@;
                            assert forall|jj: int|
                                0 <= jj < pi implies base.peers@[jj].id@ != q by {
                                assert(base.peers@[jj].id@ != base.peers@[pi as int].id@);
                            }
                            crate::service::lemma_peer_first(base.peers@, q, pi as int);
                            assert(base.is_connected(q));
                            let last: int = self.outbox@.len() - 1;
                            assert(env_subscribe(self.outbox@[last], q, topic@));
                            assert(refill_announcement(base, self.outbox@[last]));
                            assert(got_announcement(self.outbox@, base.outbox@.len() as int, q,
                                topic@));
                        }
                    }
                    proof {
                        assert forall|mi2: int, pi2: int|
                            0 <= mi2 < mi && (#[trigger] base.meshes@[mi2]).peers@.len()
                                < base.mesh_low && 0 <= pi2 < base.peers@.len() && (#[trigger]
                        base.peers@[pi2]).state is Connected implies got_announcement(
                            self.outbox@,
                            base.outbox@.len() as int,
                            base.peers@[pi2].id@,
                            base.meshes@[mi2].topic@,
                        ) by {
                            lemma_got_announcement_extend(
                                pre_push,
                                self.outbox@,
                                base.outbox@.len() as int,
                                base.peers@[pi2].id@,
                                base.meshes@[mi2].topic@,
                            );
                        }
                        assert forall|pi2: int|
                            0 <= pi2 < pi + 1 && (#[trigger] self.peers@[pi2]).state
                                is Connected implies got_announcement(
                            self.outbox@,
                            base.outbox@.len() as int,
                            self.peers@[pi2].id@,
                            topic@,
                        ) by {
                            if pi2 < pi {
                                lemma_got_announcement_extend(
                                    pre_push,
                                    self.outbox@,
                                    base.outbox@.len() as int,
                                    self.peers@[pi2].id@,
                                    topic@,
                                );
                            }
                        }
                    }
                    pi += 1;
                }
                proof {
                    assert forall|mi2: int, pi2: int|
                        0 <= mi2 < mi + 1 && (#[trigger] base.meshes@[mi2]).peers@.len()
                            < base.mesh_low && 0 <= pi2 < base.peers@.len() && (#[trigger]
                    base.peers@[pi2]).state is Connected implies got_announcement(
                        self.outbox@,
                        base.outbox@.len() as int,
                        base.peers@[pi2].id@,
                        base.meshes@[mi2].topic@,
                    ) by {
                        if mi2 == mi as int {
                            assert(base.meshes@[mi2].topic@ == topic@);
                        }
                    }
                }
            }
            mi += 1;
        }
        proof {
            assert(self.outbox@.take(base.outbox@.len() as int) =~= base.outbox@);
        }
    }
}

} // verus!
