use vstd::prelude::*;
use crate::bytes_util::{bytes_eq, copy_bytes};
use crate::distance::{valid_id, xor_distance};
use crate::hex_codec::{decode_hex, hex_bytes, valid_hex};
use crate::identity::{
    create_record, generate_secret_key, node_id_from_secret, node_id_of, valid_secret, wf_record,
    PeerRecord,
};
use crate::discovery::RoutingTable;
use crate::messages::{Envelope, Event, WireMessage};

verus! {

/// Connection lifecycle of one peer: `Dialing` on an attempt, `Connected`
/// once established, `Disconnected` terminal per attempt.
#[derive(Debug, Clone, Copy, PartialEq, Eq)]
pub enum ConnState {
    Dialing,
    Connected,
    Disconnected,
}

/// Per-peer connection bookkeeping. The next correlation id only grows, so
/// ids are never reused towards one peer while older ones may be pending.
pub struct Peer {
    pub id: Vec<u8>,
    pub state: ConnState,
    pub next_rpc_id: u64,
}

/// Membership of one topic's mesh.
pub struct Mesh {
    pub topic: Vec<u8>,
    pub peers: Vec<Vec<u8>>,
}

/// An outbound request waiting for its response.
pub struct PendingRpc {
    pub peer: Vec<u8>,
    pub rpc_id: u64,
}

/// Errors of the outbound operations; all are local to one call.
#[derive(Debug, Clone, Copy, PartialEq, Eq)]
pub enum NetworkError {
    /// The configured or supplied key material is unusable.
    InvalidKey,
    /// The operation needs a connected peer.
    NotConnected,
    /// The peer identifier names the local node.
    SelfDial,
    /// The peer is already connected.
    AlreadyConnected,
    /// Correlation ids towards this peer are used up.
    IdsExhausted,
    /// The node does not subscribe to the topic.
    NotSubscribed,
}

/// Bound on the gossip deduplication set; the oldest identifier leaves first.
pub const SEEN_CAP: usize = 1024;

/// First position of a peer entry with the given identifier, or -1.
pub open spec fn peer_idx(ps: Seq<Peer>, id: Seq<u8>) -> int
    decreases ps.len(),
{
    if ps.len() == 0 {
        -1
    } else if ps[0].id@ == id {
        0
    } else if peer_idx(ps.drop_first(), id) == -1 {
        -1
    } else {
        peer_idx(ps.drop_first(), id) + 1
    }
}

/// First position of a byte string in a list, or -1.
pub open spec fn bytes_idx(ss: Seq<Vec<u8>>, x: Seq<u8>) -> int
    decreases ss.len(),
{
    if ss.len() == 0 {
        -1
    } else if ss[0]@ == x {
        0
    } else if bytes_idx(ss.drop_first(), x) == -1 {
        -1
    } else {
        bytes_idx(ss.drop_first(), x) + 1
    }
}

/// First position of a mesh for the given topic, or -1.
pub open spec fn mesh_idx(ms: Seq<Mesh>, t: Seq<u8>) -> int
    decreases ms.len(),
{
    if ms.len() == 0 {
        -1
    } else if ms[0].topic@ == t {
        0
    } else if mesh_idx(ms.drop_first(), t) == -1 {
        -1
    } else {
        mesh_idx(ms.drop_first(), t) + 1
    }
}

/// First position of a pending entry for the peer and correlation id, or -1.
pub open spec fn pending_idx(pp: Seq<PendingRpc>, peer: Seq<u8>, rpc_id: u64) -> int
    decreases pp.len(),
{
    if pp.len() == 0 {
        -1
    } else if pp[0].peer@ == peer && pp[0].rpc_id == rpc_id {
        0
    } else if pending_idx(pp.drop_first(), peer, rpc_id) == -1 {
        -1
    } else {
        pending_idx(pp.drop_first(), peer, rpc_id) + 1
    }
}

/// `peer_idx` names a real entry when nonnegative, and -1 means absence.
pub proof fn lemma_peer_idx(ps: Seq<Peer>, id: Seq<u8>)
    ensures
        peer_idx(ps, id) == -1 ==> forall|j: int| 0 <= j < ps.len() ==> ps[j].id@ != id,
        peer_idx(ps, id) != -1 ==> 0 <= peer_idx(ps, id) < ps.len() && ps[peer_idx(ps, id)].id@
            == id,
        peer_idx(ps, id) >= 0 ==> forall|j: int| 0 <= j < peer_idx(ps, id) ==> ps[j].id@ != id,
    decreases ps.len(),
{
    if ps.len() > 0 {
        lemma_peer_idx(ps.drop_first(), id);
        let k = peer_idx(ps, id);
        if ps[0].id@ != id && k == -1 {
            assert forall|j: int| 0 <= j < ps.len() implies ps[j].id@ != id by {
                if j > 0 {
                    assert(ps.drop_first()[j - 1] == ps[j]);
                }
            }
        }
        if k > 0 {
            assert(ps.drop_first()[k - 1] == ps[k]);
            assert forall|j: int| 0 <= j < k implies ps[j].id@ != id by {
                if j > 0 {
                    assert(ps.drop_first()[j - 1] == ps[j]);
                }
            }
        }
    }
}

/// `bytes_idx` names a real entry when nonnegative, and -1 means absence.
pub proof fn lemma_bytes_idx(ss: Seq<Vec<u8>>, x: Seq<u8>)
    ensures
        bytes_idx(ss, x) == -1 ==> forall|j: int| 0 <= j < ss.len() ==> ss[j]@ != x,
        bytes_idx(ss, x) != -1 ==> 0 <= bytes_idx(ss, x) < ss.len() && ss[bytes_idx(ss, x)]@ == x,
        bytes_idx(ss, x) >= 0 ==> forall|j: int| 0 <= j < bytes_idx(ss, x) ==> ss[j]@ != x,
    decreases ss.len(),
{
    if ss.len() > 0 {
        lemma_bytes_idx(ss.drop_first(), x);
        let k = bytes_idx(ss, x);
        if ss[0]@ != x && k == -1 {
            assert forall|j: int| 0 <= j < ss.len() implies ss[j]@ != x by {
                if j > 0 {
                    assert(ss.drop_first()[j - 1] == ss[j]);
                }
            }
        }
        if k > 0 {
            assert(ss.drop_first()[k - 1] == ss[k]);
            assert forall|j: int| 0 <= j < k implies ss[j]@ != x by {
                if j > 0 {
                    assert(ss.drop_first()[j - 1] == ss[j]);
                }
            }
        }
    }
}

/// `mesh_idx` names a real entry when nonnegative, and -1 means absence.
pub proof fn lemma_mesh_idx(ms: Seq<Mesh>, t: Seq<u8>)
    ensures
        mesh_idx(ms, t) == -1 ==> forall|j: int| 0 <= j < ms.len() ==> ms[j].topic@ != t,
        mesh_idx(ms, t) != -1 ==> 0 <= mesh_idx(ms, t) < ms.len() && ms[mesh_idx(ms, t)].topic@
            == t,
    decreases ms.len(),
{
    if ms.len() > 0 {
        lemma_mesh_idx(ms.drop_first(), t);
        let k = mesh_idx(ms, t);
        if ms[0].topic@ != t && k == -1 {
            assert forall|j: int| 0 <= j < ms.len() implies ms[j].topic@ != t by {
                if j > 0 {
                    assert(ms.drop_first()[j - 1] == ms[j]);
                }
            }
        }
        if k > 0 {
            assert(ms.drop_first()[k - 1] == ms[k]);
        }
    }
}

/// `pending_idx` names a real entry when nonnegative, and -1 means absence.
pub proof fn lemma_pending_idx(pp: Seq<PendingRpc>, peer: Seq<u8>, rpc_id: u64)
    ensures
        pending_idx(pp, peer, rpc_id) == -1 ==> forall|j: int|
            0 <= j < pp.len() ==> !(pp[j].peer@ == peer && pp[j].rpc_id == rpc_id),
        pending_idx(pp, peer, rpc_id) != -1 ==> 0 <= pending_idx(pp, peer, rpc_id) < pp.len()
            && pp[pending_idx(pp, peer, rpc_id)].peer@ == peer && pp[pending_idx(
            pp,
            peer,
            rpc_id,
        )].rpc_id == rpc_id,
    decreases pp.len(),
{
    if pp.len() > 0 {
        lemma_pending_idx(pp.drop_first(), peer, rpc_id);
        let k = pending_idx(pp, peer, rpc_id);
        if !(pp[0].peer@ == peer && pp[0].rpc_id == rpc_id) && k == -1 {
            assert forall|j: int| 0 <= j < pp.len() implies !(pp[j].peer@ == peer
                && pp[j].rpc_id == rpc_id) by {
                if j > 0 {
                    assert(pp.drop_first()[j - 1] == pp[j]);
                }
            }
        }
        if k > 0 {
            assert(pp.drop_first()[k - 1] == pp[k]);
        }
    }
}

/// Finds a peer entry by identifier.
pub fn find_peer(ps: &Vec<Peer>, id: &Vec<u8>) -> (r: Option<usize>)
    ensures
        r matches Some(j) ==> j == peer_idx(ps@, id@) && j < ps@.len() && ps@[j as int].id@ == id@,
        r is None ==> peer_idx(ps@, id@) == -1,
{
    let mut j: usize = 0;
    while j < ps.len()
        invariant
            j <= ps@.len(),
            forall|i: int| 0 <= i < j ==> ps@[i].id@ != id@,
        decreases ps@.len() - j,
    {
        if bytes_eq(&ps[j].id, id) {
            proof {
                lemma_peer_first(ps@, id@, j as int);
            }
            return Some(j);
        }
        j += 1;
    }
    proof {
        lemma_peer_idx(ps@, id@);
        if peer_idx(ps@, id@) != -1 {
            assert(false);
        }
    }
    None
}

pub proof fn lemma_peer_first(ps: Seq<Peer>, id: Seq<u8>, i: int)
    requires
        0 <= i < ps.len(),
        ps[i].id@ == id,
        forall|j: int| 0 <= j < i ==> ps[j].id@ != id,
    ensures
        peer_idx(ps, id) == i,
    decreases i,
{
    if i > 0 {
        assert(forall|j: int| 0 <= j < ps.drop_first().len() ==> ps.drop_first()[j] == ps[j + 1]);
        lemma_peer_first(ps.drop_first(), id, i - 1);
    }
}

/// Finds a byte string in a list.
pub fn find_bytes(ss: &Vec<Vec<u8>>, x: &Vec<u8>) -> (r: Option<usize>)
    ensures
        r matches Some(j) ==> j == bytes_idx(ss@, x@) && j < ss@.len() && ss@[j as int]@ == x@,
        r is None ==> bytes_idx(ss@, x@) == -1,
{
    let mut j: usize = 0;
    while j < ss.len()
        invariant
            j <= ss@.len(),
            forall|i: int| 0 <= i < j ==> ss@[i]@ != x@,
        decreases ss@.len() - j,
    {
        if bytes_eq(&ss[j], x) {
            proof {
                lemma_bytes_first(ss@, x@, j as int);
            }
            return Some(j);
        }
        j += 1;
    }
    proof {
        lemma_bytes_idx(ss@, x@);
        if bytes_idx(ss@, x@) != -1 {
            assert(false);
        }
    }
    None
}

pub proof fn lemma_bytes_first(ss: Seq<Vec<u8>>, x: Seq<u8>, i: int)
    requires
        0 <= i < ss.len(),
        ss[i]@ == x,
        forall|j: int| 0 <= j < i ==> ss[j]@ != x,
    ensures
        bytes_idx(ss, x) == i,
    decreases i,
{
    if i > 0 {
        assert(forall|j: int| 0 <= j < ss.drop_first().len() ==> ss.drop_first()[j] == ss[j + 1]);
        lemma_bytes_first(ss.drop_first(), x, i - 1);
    }
}

/// Finds the mesh of a topic.
pub fn find_mesh(ms: &Vec<Mesh>, t: &Vec<u8>) -> (r: Option<usize>)
    ensures
        r matches Some(j) ==> j == mesh_idx(ms@, t@) && j < ms@.len() && ms@[j as int].topic@
            == t@,
        r is None ==> mesh_idx(ms@, t@) == -1,
{
    let mut j: usize = 0;
    while j < ms.len()
        invariant
            j <= ms@.len(),
            forall|i: int| 0 <= i < j ==> ms@[i].topic@ != t@,
        decreases ms@.len() - j,
    {
        if bytes_eq(&ms[j].topic, t) {
            proof {
                lemma_mesh_first(ms@, t@, j as int);
            }
            return Some(j);
        }
        j += 1;
    }
    proof {
        lemma_mesh_idx(ms@, t@);
        if mesh_idx(ms@, t@) != -1 {
            assert(false);
        }
    }
    None
}

pub proof fn lemma_mesh_first(ms: Seq<Mesh>, t: Seq<u8>, i: int)
    requires
        0 <= i < ms.len(),
        ms[i].topic@ == t,
        forall|j: int| 0 <= j < i ==> ms[j].topic@ != t,
    ensures
        mesh_idx(ms, t) == i,
    decreases i,
{
    if i > 0 {
        assert(forall|j: int| 0 <= j < ms.drop_first().len() ==> ms.drop_first()[j] == ms[j + 1]);
        lemma_mesh_first(ms.drop_first(), t, i - 1);
    }
}

/// Finds a pending entry by peer and correlation id.
pub fn find_pending(pp: &Vec<PendingRpc>, peer: &Vec<u8>, rpc_id: u64) -> (r: Option<usize>)
    ensures
        r matches Some(j) ==> j == pending_idx(pp@, peer@, rpc_id) && j < pp@.len(),
        r is None ==> pending_idx(pp@, peer@, rpc_id) == -1,
{
    let mut j: usize = 0;
    while j < pp.len()
        invariant
            j <= pp@.len(),
            forall|i: int|
                0 <= i < j ==> !(pp@[i].peer@ == peer@ && pp@[i].rpc_id == rpc_id),
        decreases pp@.len() - j,
    {
        if bytes_eq(&pp[j].peer, peer) && pp[j].rpc_id == rpc_id {
            proof {
                lemma_pending_first(pp@, peer@, rpc_id, j as int);
            }
            return Some(j);
        }
        j += 1;
    }
    proof {
        lemma_pending_idx(pp@, peer@, rpc_id);
        if pending_idx(pp@, peer@, rpc_id) != -1 {
            assert(false);
        }
    }
    None
}

pub proof fn lemma_pending_first(pp: Seq<PendingRpc>, peer: Seq<u8>, rpc_id: u64, i: int)
    requires
        0 <= i < pp.len(),
        pp[i].peer@ == peer && pp[i].rpc_id == rpc_id,
        forall|j: int| 0 <= j < i ==> !(pp[j].peer@ == peer && pp[j].rpc_id == rpc_id),
    ensures
        pending_idx(pp, peer, rpc_id) == i,
    decreases i,
{
    if i > 0 {
        assert(forall|j: int| 0 <= j < pp.drop_first().len() ==> pp.drop_first()[j] == pp[j + 1]);
        lemma_pending_first(pp.drop_first(), peer, rpc_id, i - 1);
    }
}

/// Configuration the service consumes at startup.
pub struct NetworkConfig {
    /// TCP port of the transport.
    pub libp2p_port: u16,
    /// UDP port of the discovery listener.
    pub discovery_port: u16,
    /// Signed records of the bootstrap peers.
    pub boot_nodes: Vec<PeerRecord>,
    /// Optional hex-encoded secret key; a fresh key is generated without it.
    pub secret_key_hex: Option<String>,
    /// Directory for persisted identity and state, as a byte path; each
    /// instance appends its port so that instances never share a directory.
    pub network_dir: Vec<u8>,
    /// Topics the node subscribes to at startup.
    pub topics: Vec<Vec<u8>>,
    /// Mesh low watermark. Outreach here is passive: subscriptions are
    /// announced to every peer on connect, so a thin mesh refills as
    /// connections arrive; no active grafting round is run.
    pub mesh_low: usize,
    /// Mesh high watermark: a topic mesh never grows beyond it.
    pub mesh_high: usize,
}

impl Default for NetworkConfig {
    /// Ports 9000, no bootstrap peers, a generated key, no topics, and
    /// mesh watermarks 4 and 12.
    fn default() -> (c: NetworkConfig)
        ensures
            c.libp2p_port == 9000,
            c.discovery_port == 9000,
            c.boot_nodes@.len() == 0,
            c.secret_key_hex is None,
            c.network_dir@.len() == 0,
            c.topics@.len() == 0,
            c.mesh_low == 4,
            c.mesh_high == 12,
    {
        NetworkConfig {
            libp2p_port: 9000,
            discovery_port: 9000,
            boot_nodes: Vec::new(),
            secret_key_hex: None,
            network_dir: Vec::new(),
            topics: Vec::new(),
            mesh_low: 4,
            mesh_high: 12,
        }
    }
}

/// Decimal rendering of a number: ASCII digits, most significant first.
pub open spec fn dec_bytes(n: int) -> Seq<u8>
    decreases n,
{
    if n < 0 {
        Seq::<u8>::empty()
    } else if n < 10 {
        seq![(48 + n) as u8]
    } else {
        dec_bytes(n / 10).push((48 + n % 10) as u8)
    }
}

/// Appends a number's decimal digits to a byte path.
fn push_dec(buf: &mut Vec<u8>, n: u16)
    ensures
        final(buf)@ == old(buf)@ + dec_bytes(n as int),
    decreases n,
{
    if n >= 10 {
        push_dec(buf, n / 10);
    }
    buf.push(48 + (n % 10) as u8);
    proof {
        if n < 10 {
            assert(buf@ =~= old(buf)@ + dec_bytes(n as int));
        } else {
            assert(buf@ =~= old(buf)@ + dec_bytes(n as int));
        }
    }
}

/// A default configuration listening on one port, with the given bootstrap
/// records and optional secret key; the network directory is the default
/// directory extended with the port, so concurrent instances stay apart.
pub fn build_config(port: u16, boot_nodes: Vec<PeerRecord>, secret_key: Option<String>) -> (c:
    NetworkConfig)
    ensures
        c.libp2p_port == port,
        c.discovery_port == port,
        c.boot_nodes == boot_nodes,
        c.secret_key_hex == secret_key,
        c.network_dir@ == dec_bytes(port as int),
        c.topics@.len() == 0,
        c.mesh_low == 4,
        c.mesh_high == 12,
{
    let mut config = NetworkConfig::default();
    config.libp2p_port = port;
    config.discovery_port = port;
    config.boot_nodes = boot_nodes;
    config.secret_key_hex = secret_key;
    push_dec(&mut config.network_dir, port);
    proof {
        assert(config.network_dir@ =~= dec_bytes(port as int));
    }
    config
}

/// The event appended when a peer connection completes.
pub open spec fn ev_peer_dialed(e: Event, p: Seq<u8>) -> bool {
    e matches Event::PeerDialed(q) && q@ == p
}

/// The event appended when a dial attempt fails.
pub open spec fn ev_dial_failed(e: Event, p: Seq<u8>) -> bool {
    e matches Event::DialFailed(q) && q@ == p
}

/// The event appended when a peer disconnects.
pub open spec fn ev_peer_disconnected(e: Event, p: Seq<u8>) -> bool {
    e matches Event::PeerDisconnected(q) && q@ == p
}

/// The event appended when a peer joins a topic mesh.
pub open spec fn ev_peer_subscribed(e: Event, p: Seq<u8>, t: Seq<u8>) -> bool {
    &&& e matches Event::PeerSubscribed(q, tt)
    &&& q@ == p
    &&& tt@ == t
}

/// An envelope announcing a subscription to one peer.
pub open spec fn env_subscribe(e: Envelope, to: Seq<u8>, t: Seq<u8>) -> bool {
    &&& e.to@ == to
    &&& e.msg matches WireMessage::Subscribe(tt)
    &&& tt@ == t
}

/// An envelope withdrawing a subscription.
pub open spec fn env_unsubscribe(e: Envelope, to: Seq<u8>, t: Seq<u8>) -> bool {
    &&& e.to@ == to
    &&& e.msg matches WireMessage::Unsubscribe(tt)
    &&& tt@ == t
}

/// An envelope carrying the local record to one peer.
pub open spec fn env_record(e: Envelope, to: Seq<u8>, rec_id: Seq<u8>, rec_seq: u64) -> bool {
    &&& e.to@ == to
    &&& e.msg matches WireMessage::Record(r)
    &&& r.node_id@ == rec_id
    &&& r.seq_no == rec_seq
}

/// The peer-to-peer service: one node's identity, transport-facing state and
/// subsystems, multiplexed into a single event queue. Outbound wire traffic
/// gathers in `outbox` for the driver; host-facing events gather in `events`
/// and are drained by `poll`.
pub struct Service {
    pub local_id: Vec<u8>,
    pub local_record: PeerRecord,
    pub table: RoutingTable,
    pub peers: Vec<Peer>,
    pub pending: Vec<PendingRpc>,
    pub subs: Vec<Vec<u8>>,
    pub meshes: Vec<Mesh>,
    pub seen: Vec<Vec<u8>>,
    pub events: Vec<Event>,
    pub outbox: Vec<Envelope>,
    pub mesh_low: usize,
    pub mesh_high: usize,
}

impl Service {
    /// Connection state recorded for an identifier; unknown peers count as
    /// disconnected.
    pub open spec fn state_of(self, id: Seq<u8>) -> ConnState {
        if peer_idx(self.peers@, id) >= 0 {
            self.peers@[peer_idx(self.peers@, id)].state
        } else {
            ConnState::Disconnected
        }
    }

    /// Whether a connection to the peer is established.
    pub open spec fn is_connected(self, id: Seq<u8>) -> bool {
        self.state_of(id) is Connected
    }

    /// Whether the node itself subscribes to the topic.
    pub open spec fn subscribed(self, t: Seq<u8>) -> bool {
        bytes_idx(self.subs@, t) >= 0
    }

    /// Peers in the topic's mesh, in join order; empty without a mesh.
    pub open spec fn mesh_peers(self, t: Seq<u8>) -> Seq<Vec<u8>> {
        if mesh_idx(self.meshes@, t) >= 0 {
            self.meshes@[mesh_idx(self.meshes@, t)].peers@
        } else {
            Seq::<Vec<u8>>::empty()
        }
    }

    /// Whether the peer is in the topic's mesh.
    pub open spec fn in_mesh(self, t: Seq<u8>, p: Seq<u8>) -> bool {
        bytes_idx(self.mesh_peers(t), p) >= 0
    }

    /// Whether a request with this correlation id is outstanding at the peer.
    pub open spec fn pending_has(self, p: Seq<u8>, rpc_id: u64) -> bool {
        pending_idx(self.pending@, p, rpc_id) >= 0
    }

    /// Whether the gossip deduplication set holds the message id.
    pub open spec fn seen_has(self, mid: Seq<u8>) -> bool {
        bytes_idx(self.seen@, mid) >= 0
    }

    /// No outstanding correlation and no mesh membership refers to the peer.
    pub open spec fn purged(self, p: Seq<u8>) -> bool {
        &&& forall|i: int| 0 <= i < self.pending@.len() ==> (#[trigger] self.pending@[i]).peer@
            != p
        &&& forall|mi: int, j: int|
            #![trigger self.meshes@[mi].peers@[j]]
            0 <= mi < self.meshes@.len() && 0 <= j < self.meshes@[mi].peers@.len()
                ==> self.meshes@[mi].peers@[j]@ != p
    }

    /// Internal consistency of the service. Identities are well-formed and
    /// unique; every mesh belongs to a subscribed topic, stays within the
    /// high watermark, and holds only connected peers; every outstanding
    /// correlation points at a connected peer and lies below that peer's
    /// next correlation id, so fresh ids never collide.
    pub open spec fn wf(self) -> bool {
        &&& valid_id(self.local_id@)
        &&& self.table.wf()
        &&& self.table.local_id@ == self.local_id@
        &&& forall|i: int|
            0 <= i < self.peers@.len() ==> valid_id((#[trigger] self.peers@[i]).id@)
                && self.peers@[i].id@ != self.local_id@
        &&& forall|i: int, j: int|
            #![trigger self.peers@[i], self.peers@[j]]
            0 <= i < j < self.peers@.len() ==> self.peers@[i].id@ != self.peers@[j].id@
        &&& forall|i: int, j: int|
            #![trigger self.subs@[i], self.subs@[j]]
            0 <= i < j < self.subs@.len() ==> self.subs@[i]@ != self.subs@[j]@
        &&& forall|i: int, j: int|
            #![trigger self.meshes@[i], self.meshes@[j]]
            0 <= i < j < self.meshes@.len() ==> self.meshes@[i].topic@ != self.meshes@[j].topic@
        &&& forall|mi: int|
            0 <= mi < self.meshes@.len() ==> bytes_idx(
                self.subs@,
                (#[trigger] self.meshes@[mi]).topic@,
            ) >= 0 && self.meshes@[mi].peers@.len() <= self.mesh_high
        &&& forall|mi: int, j: int|
            #![trigger self.meshes@[mi].peers@[j]]
            0 <= mi < self.meshes@.len() && 0 <= j < self.meshes@[mi].peers@.len()
                ==> self.is_connected(self.meshes@[mi].peers@[j]@)
        &&& forall|mi: int, j1: int, j2: int|
            #![trigger self.meshes@[mi].peers@[j1], self.meshes@[mi].peers@[j2]]
            0 <= mi < self.meshes@.len() && 0 <= j1 < j2 < self.meshes@[mi].peers@.len()
                ==> self.meshes@[mi].peers@[j1]@ != self.meshes@[mi].peers@[j2]@
        &&& forall|i: int|
            0 <= i < self.pending@.len() ==> self.is_connected(
                (#[trigger] self.pending@[i]).peer@,
            ) && self.pending@[i].rpc_id < self.peers@[peer_idx(
                self.peers@,
                self.pending@[i].peer@,
            )].next_rpc_id
        &&& forall|i: int, j: int|
            #![trigger self.pending@[i], self.pending@[j]]
            0 <= i < j < self.pending@.len() ==> !(self.pending@[i].peer@ == self.pending@[j].peer@
                && self.pending@[i].rpc_id == self.pending@[j].rpc_id)
        &&& self.seen@.len() <= SEEN_CAP
    }

    /// The local node's identifier.
    pub fn local_id(&self) -> (r: &Vec<u8>)
        ensures
            r@ == self.local_id@,
    {
        &self.local_id
    }

    /// The local node's signed record.
    pub fn local_record(&self) -> (r: &PeerRecord)
        ensures
            *r == self.local_record,
    {
        &self.local_record
    }

    /// Number of peers in the `Connected` state.
    pub fn connected_peer_count(&self) -> (r: usize)
        ensures
            r == count_connected(self.peers@, self.peers@.len() as int),
    {
        let mut total: usize = 0;
        let mut i: usize = 0;
        while i < self.peers.len()
            invariant
                i <= self.peers@.len(),
                total == count_connected(self.peers@, i as int),
                total <= i,
            decreases self.peers@.len() - i,
        {
            let connected = match self.peers[i].state {
                ConnState::Connected => true,
                _ => false,
            };
            if connected {
                total += 1;
            }
            i += 1;
        }
        total
    }

    /// Number of records the discovery table holds.
    pub fn known_peer_count(&self) -> (r: usize)
        requires
            self.wf(),
        ensures
            r == self.table.count(),
    {
        self.table.known_count()
    }

    /// Number of requests outstanding at one peer.
    pub fn pending_request_count(&self, peer: &Vec<u8>) -> (r: usize)
        ensures
            r == count_pending_for(self.pending@, peer@, self.pending@.len() as int),
    {
        let mut total: usize = 0;
        let mut i: usize = 0;
        while i < self.pending.len()
            invariant
                i <= self.pending@.len(),
                total == count_pending_for(self.pending@, peer@, i as int),
                total <= i,
            decreases self.pending@.len() - i,
        {
            if bytes_eq(&self.pending[i].peer, peer) {
                total += 1;
            }
            i += 1;
        }
        total
    }

    /// Drains the event queue: every event produced so far, in production
    /// order, each delivered exactly once. Nothing else changes.
    pub fn poll(&mut self) -> (r: Vec<Event>)
        ensures
            r@ == old(self).events@,
            final(self).events@.len() == 0,
            *final(self) == (Service { events: final(self).events, ..*old(self) }),
    {
        let mut out: Vec<Event> = Vec::new();
        core::mem::swap(&mut out, &mut self.events);
        out
    }

    /// Drains the outbox: every wire message queued so far, in order; the
    /// driver delivers each envelope to its destination. Nothing else changes.
    pub fn take_outbox(&mut self) -> (r: Vec<Envelope>)
        ensures
            r@ == old(self).outbox@,
            final(self).outbox@.len() == 0,
            *final(self) == (Service { outbox: final(self).outbox, ..*old(self) }),
    {
        let mut out: Vec<Envelope> = Vec::new();
        core::mem::swap(&mut out, &mut self.outbox);
        out
    }
}

/// Connected entries among the first `i` peers.
pub open spec fn count_connected(ps: Seq<Peer>, i: int) -> nat
    decreases i,
{
    if i <= 0 {
        0
    } else {
        count_connected(ps, i - 1) + (if ps[i - 1].state is Connected {
            1nat
        } else {
            0nat
        })
    }
}

/// Pending entries for one peer among the first `i`.
pub open spec fn count_pending_for(pp: Seq<PendingRpc>, peer: Seq<u8>, i: int) -> nat
    decreases i,
{
    if i <= 0 {
        0
    } else {
        count_pending_for(pp, peer, i - 1) + (if pp[i - 1].peer@ == peer {
            1nat
        } else {
            0nat
        })
    }
}

/// `peer_idx` after appending an entry.
pub proof fn lemma_peer_idx_push(ps: Seq<Peer>, e: Peer, id: Seq<u8>)
    ensures
        peer_idx(ps, id) >= 0 ==> peer_idx(ps.push(e), id) == peer_idx(ps, id),
        peer_idx(ps, id) == -1 && e.id@ == id ==> peer_idx(ps.push(e), id) == ps.len(),
        peer_idx(ps, id) == -1 && e.id@ != id ==> peer_idx(ps.push(e), id) == -1,
    decreases ps.len(),
{
    let ps1 = ps.push(e);
    if ps.len() > 0 {
        assert(ps1.drop_first() =~= ps.drop_first().push(e));
        lemma_peer_idx_push(ps.drop_first(), e, id);
        lemma_peer_idx(ps.drop_first(), id);
        assert(ps1[0] == ps[0]);
        assert(peer_idx(ps1, id) == (if ps1[0].id@ == id {
            0int
        } else if peer_idx(ps1.drop_first(), id) == -1 {
            -1int
        } else {
            peer_idx(ps1.drop_first(), id) + 1
        }));
        assert(peer_idx(ps, id) == (if ps[0].id@ == id {
            0int
        } else if peer_idx(ps.drop_first(), id) == -1 {
            -1int
        } else {
            peer_idx(ps.drop_first(), id) + 1
        }));
    } else {
        assert(ps1.len() == 1);
        assert(ps1[0] == e);
        assert(ps1.drop_first() =~= Seq::<Peer>::empty());
        assert(peer_idx(ps1.drop_first(), id) == -1);
        assert(peer_idx(ps1, id) == (if ps1[0].id@ == id {
            0int
        } else {
            -1int
        }));
    }
}

/// `peer_idx` is blind to updates that keep an entry's identifier.
pub proof fn lemma_peer_idx_update(ps: Seq<Peer>, i: int, e: Peer, id: Seq<u8>)
    requires
        0 <= i < ps.len(),
        e.id@ == ps[i].id@,
    ensures
        peer_idx(ps.update(i, e), id) == peer_idx(ps, id),
    decreases ps.len(),
{
    reveal_with_fuel(peer_idx, 3);
    if ps.len() > 0 {
        if i == 0 {
            assert(ps.update(0, e).drop_first() =~= ps.drop_first());
        } else {
            assert(ps.update(i, e).drop_first() =~= ps.drop_first().update(i - 1, e));
            lemma_peer_idx_update(ps.drop_first(), i - 1, e, id);
        }
    }
}

/// `bytes_idx` after appending an element.
pub proof fn lemma_bytes_idx_push(ss: Seq<Vec<u8>>, e: Vec<u8>, x: Seq<u8>)
    ensures
        bytes_idx(ss, x) >= 0 ==> bytes_idx(ss.push(e), x) == bytes_idx(ss, x),
        bytes_idx(ss, x) == -1 && e@ == x ==> bytes_idx(ss.push(e), x) == ss.len(),
        bytes_idx(ss, x) == -1 && e@ != x ==> bytes_idx(ss.push(e), x) == -1,
    decreases ss.len(),
{
    if ss.len() > 0 {
        assert(ss.push(e).drop_first() =~= ss.drop_first().push(e));
        lemma_bytes_idx_push(ss.drop_first(), e, x);
        lemma_bytes_idx(ss.drop_first(), x);
    } else {
        assert(ss.push(e).drop_first() =~= Seq::<Vec<u8>>::empty());
        assert(ss.push(e)[0] == e);
        assert(bytes_idx(ss.push(e).drop_first(), x) == -1);
    }
}

/// References to one peer removed from a membership list, order kept.
pub open spec fn remove_refs(ss: Seq<Vec<u8>>, p: Seq<u8>) -> Seq<Vec<u8>>
    decreases ss.len(),
{
    if ss.len() == 0 {
        Seq::<Vec<u8>>::empty()
    } else if ss[0]@ == p {
        remove_refs(ss.drop_first(), p)
    } else {
        seq![ss[0]] + remove_refs(ss.drop_first(), p)
    }
}

/// Unfolding `remove_refs` at the far end.
pub proof fn lemma_remove_refs_push(ss: Seq<Vec<u8>>, e: Vec<u8>, p: Seq<u8>)
    ensures
        e@ == p ==> remove_refs(ss.push(e), p) == remove_refs(ss, p),
        e@ != p ==> remove_refs(ss.push(e), p) == remove_refs(ss, p).push(e),
    decreases ss.len(),
{
    reveal_with_fuel(remove_refs, 3);
    if ss.len() > 0 {
        assert(ss.push(e).drop_first() =~= ss.drop_first().push(e));
        lemma_remove_refs_push(ss.drop_first(), e, p);
        if ss[0]@ != p {
            if e@ != p {
                assert(seq![ss[0]] + remove_refs(ss.drop_first(), p).push(e) =~= (seq![ss[0]]
                    + remove_refs(ss.drop_first(), p)).push(e));
            }
        }
    } else {
        assert(ss.push(e).drop_first() =~= Seq::<Vec<u8>>::empty());
        if e@ != p {
            assert(remove_refs(ss.push(e), p) =~= remove_refs(ss, p).push(e));
        }
    }
}

/// What survives the removal: exactly the other peers, their order and
/// multiplicity untouched.
pub proof fn lemma_remove_refs_membership(ss: Seq<Vec<u8>>, p: Seq<u8>, q: Seq<u8>)
    ensures
        q == p ==> bytes_idx(remove_refs(ss, p), q) == -1,
        q != p ==> (bytes_idx(remove_refs(ss, p), q) >= 0 <==> bytes_idx(ss, q) >= 0),
        remove_refs(ss, p).len() <= ss.len(),
        forall|i: int|
            0 <= i < remove_refs(ss, p).len() ==> (#[trigger] remove_refs(ss, p)[i])@ != p,
    decreases ss.len(),
{
    if ss.len() > 0 {
        lemma_remove_refs_membership(ss.drop_first(), p, q);
        if ss[0]@ != p {
            let rest = remove_refs(ss.drop_first(), p);
            assert(remove_refs(ss, p) == seq![ss[0]] + rest);
            assert(remove_refs(ss, p)[0] == ss[0]);
            assert(forall|i: int| 0 <= i < rest.len() ==> (seq![ss[0]] + rest)[i + 1] == rest[i]);
            assert((seq![ss[0]] + rest).drop_first() =~= rest);
        }
    }
}

/// Removal keeps entries distinct.
pub proof fn lemma_remove_refs_distinct(ss: Seq<Vec<u8>>, p: Seq<u8>)
    requires
        forall|i: int, j: int|
            #![trigger ss[i], ss[j]]
            0 <= i < j < ss.len() ==> ss[i]@ != ss[j]@,
    ensures
        forall|i: int, j: int|
            #![trigger remove_refs(ss, p)[i], remove_refs(ss, p)[j]]
            0 <= i < j < remove_refs(ss, p).len() ==> remove_refs(ss, p)[i]@ != remove_refs(
                ss,
                p,
            )[j]@,
        forall|i: int|
            0 <= i < remove_refs(ss, p).len() ==> bytes_idx(ss, (#[trigger] remove_refs(ss, p)[i])@)
                >= 0,
    decreases ss.len(),
{
    if ss.len() > 0 {
        let rest = ss.drop_first();
        assert(forall|i: int| 0 <= i < rest.len() ==> rest[i] == ss[i + 1]);
        lemma_remove_refs_distinct(rest, p);
        let rr = remove_refs(rest, p);
        assert forall|q: Seq<u8>| bytes_idx(rest, q) >= 0 implies bytes_idx(ss, q) >= 0 by {
            lemma_bytes_idx(rest, q);
            lemma_bytes_idx(ss, q);
            if bytes_idx(ss, q) == -1 {
                let w = bytes_idx(rest, q);
                assert(rest[w]@ == q);
                assert(ss[w + 1]@ == q);
                assert(false);
            }
        }
        if ss[0]@ != p {
            assert(remove_refs(ss, p) == seq![ss[0]] + rr);
            assert(remove_refs(ss, p)[0] == ss[0]);
            assert(forall|i: int| 0 <= i < rr.len() ==> (seq![ss[0]] + rr)[i + 1] == rr[i]);
            assert forall|i: int|
                0 <= i < remove_refs(ss, p).len() implies bytes_idx(
                ss,
                (remove_refs(ss, p)[i])@,
            ) >= 0 by {
                if i == 0 {
                    lemma_bytes_idx(ss, ss[0]@);
                } else {
                    lemma_remove_refs_membership(rest, p, rr[i - 1]@);
                    lemma_bytes_idx(rr, rr[i - 1]@);
                    assert(bytes_idx(rr, rr[i - 1]@) >= 0);
                }
            }
            assert forall|i: int, j: int|
                0 <= i < j < remove_refs(ss, p).len() implies remove_refs(ss, p)[i]@
                != remove_refs(ss, p)[j]@ by {
                if i == 0 {
                    lemma_remove_refs_membership(rest, p, rr[j - 1]@);
                    lemma_bytes_idx(rest, rr[j - 1]@);
                    let w = bytes_idx(rest, rr[j - 1]@);
                    if ss[0]@ == rr[j - 1]@ {
                        assert(rest[w]@ == ss[0]@);
                        assert(ss[w + 1]@ == ss[0]@);
                        assert(false);
                    }
                }
            }
        } else {
            assert forall|i: int|
                0 <= i < remove_refs(ss, p).len() implies bytes_idx(
                ss,
                (remove_refs(ss, p)[i])@,
            ) >= 0 by {
                lemma_remove_refs_membership(rest, p, rr[i]@);
                lemma_bytes_idx(rr, rr[i]@);
            }
        }
    }
}

/// Removes every reference to one peer from a membership list in place.
pub fn retain_not_peer(v: &mut Vec<Vec<u8>>, p: &Vec<u8>)
    ensures
        final(v)@ == remove_refs(old(v)@, p@),
{
    let ghost orig = old(v)@;
    let ghost op: int = 0;
    let mut j: usize = 0;
    proof {
        assert(v@ =~= remove_refs(orig.take(0), p@) + orig.skip(0));
        assert(remove_refs(orig.take(0), p@) =~= Seq::<Vec<u8>>::empty());
    }
    while j < v.len()
        invariant
            0 <= op <= orig.len(),
            j == remove_refs(orig.take(op), p@).len(),
            v@ == remove_refs(orig.take(op), p@) + orig.skip(op),
        decreases orig.len() - op,
    {
        proof {
            assert(orig.skip(op).len() > 0);
            assert(v@[j as int] == orig.skip(op)[0]);
            assert(orig.skip(op)[0] == orig[op]);
            assert(orig.take(op + 1) =~= orig.take(op).push(orig[op]));
            lemma_remove_refs_push(orig.take(op), orig[op], p@);
        }
        if bytes_eq(&v[j], p) {
            v.remove(j);
            proof {
                assert(v@ =~= remove_refs(orig.take(op + 1), p@) + orig.skip(op + 1));
            }
        } else {
            j += 1;
            proof {
                assert(orig.skip(op) =~= seq![orig[op]] + orig.skip(op + 1));
                assert(v@ =~= remove_refs(orig.take(op + 1), p@) + orig.skip(op + 1));
            }
        }
        proof {
            op = op + 1;
        }
    }
    proof {
        assert(orig.take(orig.len() as int) =~= orig);
        assert(orig.skip(op) =~= Seq::<Vec<u8>>::empty());
        assert(v@ =~= remove_refs(orig, p@));
    }
}

/// Pending entries for other peers, order kept.
pub open spec fn remove_pending(pp: Seq<PendingRpc>, p: Seq<u8>) -> Seq<PendingRpc>
    decreases pp.len(),
{
    if pp.len() == 0 {
        Seq::<PendingRpc>::empty()
    } else if pp[0].peer@ == p {
        remove_pending(pp.drop_first(), p)
    } else {
        seq![pp[0]] + remove_pending(pp.drop_first(), p)
    }
}

/// Unfolding `remove_pending` at the far end.
pub proof fn lemma_remove_pending_push(pp: Seq<PendingRpc>, e: PendingRpc, p: Seq<u8>)
    ensures
        e.peer@ == p ==> remove_pending(pp.push(e), p) == remove_pending(pp, p),
        e.peer@ != p ==> remove_pending(pp.push(e), p) == remove_pending(pp, p).push(e),
    decreases pp.len(),
{
    reveal_with_fuel(remove_pending, 3);
    if pp.len() > 0 {
        assert(pp.push(e).drop_first() =~= pp.drop_first().push(e));
        lemma_remove_pending_push(pp.drop_first(), e, p);
        if pp[0].peer@ != p {
            if e.peer@ != p {
                assert(seq![pp[0]] + remove_pending(pp.drop_first(), p).push(e) =~= (seq![pp[0]]
                    + remove_pending(pp.drop_first(), p)).push(e));
            }
        }
    } else {
        assert(pp.push(e).drop_first() =~= Seq::<PendingRpc>::empty());
        if e.peer@ != p {
            assert(remove_pending(pp.push(e), p) =~= remove_pending(pp, p).push(e));
        }
    }
}

/// What survives the purge: every entry of the result comes from the input,
/// entries for the purged peer are gone, entries for others remain.
pub proof fn lemma_remove_pending_membership(pp: Seq<PendingRpc>, p: Seq<u8>)
    ensures
        forall|i: int|
            0 <= i < remove_pending(pp, p).len() ==> (#[trigger] remove_pending(pp, p)[i]).peer@
                != p,
        forall|i: int|
            0 <= i < remove_pending(pp, p).len() ==> exists|k: int|
                0 <= k < pp.len() && pp[k] == #[trigger] remove_pending(pp, p)[i],
        forall|q: Seq<u8>, rid: u64|
            q != p ==> (#[trigger] pending_idx(remove_pending(pp, p), q, rid) >= 0 <==> pending_idx(
                pp,
                q,
                rid,
            ) >= 0),
        remove_pending(pp, p).len() <= pp.len(),
    decreases pp.len(),
{
    if pp.len() > 0 {
        let rest = pp.drop_first();
        assert(forall|i: int| 0 <= i < rest.len() ==> rest[i] == pp[i + 1]);
        lemma_remove_pending_membership(rest, p);
        let rr = remove_pending(rest, p);
        if pp[0].peer@ != p {
            assert(remove_pending(pp, p) == seq![pp[0]] + rr);
            assert(remove_pending(pp, p)[0] == pp[0]);
            assert(forall|i: int| 0 <= i < rr.len() ==> (seq![pp[0]] + rr)[i + 1] == rr[i]);
            assert((seq![pp[0]] + rr).drop_first() =~= rr);
        }
        assert forall|q: Seq<u8>, rid: u64| q != p implies (pending_idx(
            remove_pending(pp, p),
            q,
            rid,
        ) >= 0 <==> pending_idx(pp, q, rid) >= 0) by {
            lemma_pending_idx(remove_pending(pp, p), q, rid);
            lemma_pending_idx(pp, q, rid);
            lemma_pending_idx(rr, q, rid);
            lemma_pending_idx(rest, q, rid);
            if pending_idx(pp, q, rid) >= 0 {
                let w = pending_idx(pp, q, rid);
                if w > 0 {
                    assert(rest[w - 1] == pp[w]);
                }
            }
            if pending_idx(remove_pending(pp, p), q, rid) >= 0 && pp[0].peer@ != p {
                let w = pending_idx(remove_pending(pp, p), q, rid);
                if w > 0 {
                    assert((seq![pp[0]] + rr)[w] == rr[w - 1]);
                }
            }
        }
    }
}

/// Removes every pending correlation for one peer in place.
pub fn retain_pending_not_peer(v: &mut Vec<PendingRpc>, p: &Vec<u8>)
    ensures
        final(v)@ == remove_pending(old(v)@, p@),
{
    let ghost orig = old(v)@;
    let ghost op: int = 0;
    let mut j: usize = 0;
    proof {
        assert(v@ =~= remove_pending(orig.take(0), p@) + orig.skip(0));
        assert(remove_pending(orig.take(0), p@) =~= Seq::<PendingRpc>::empty());
    }
    while j < v.len()
        invariant
            0 <= op <= orig.len(),
            j == remove_pending(orig.take(op), p@).len(),
            v@ == remove_pending(orig.take(op), p@) + orig.skip(op),
        decreases orig.len() - op,
    {
        proof {
            assert(orig.skip(op).len() > 0);
            assert(v@[j as int] == orig.skip(op)[0]);
            assert(orig.skip(op)[0] == orig[op]);
            assert(orig.take(op + 1) =~= orig.take(op).push(orig[op]));
            lemma_remove_pending_push(orig.take(op), orig[op], p@);
        }
        if bytes_eq(&v[j].peer, p) {
            v.remove(j);
            proof {
                assert(v@ =~= remove_pending(orig.take(op + 1), p@) + orig.skip(op + 1));
            }
        } else {
            j += 1;
            proof {
                assert(orig.skip(op) =~= seq![orig[op]] + orig.skip(op + 1));
                assert(v@ =~= remove_pending(orig.take(op + 1), p@) + orig.skip(op + 1));
            }
        }
        proof {
            op = op + 1;
        }
    }
    proof {
        assert(orig.take(orig.len() as int) =~= orig);
        assert(orig.skip(op) =~= Seq::<PendingRpc>::empty());
        assert(v@ =~= remove_pending(orig, p@));
    }
}

impl Service {
    /// Starts an outbound connection attempt. Fails on the local id or an
    /// already-connected peer; otherwise the peer is now `Dialing`. No other
    /// peer's state, no queue and no subsystem state changes.
    pub fn dial(&mut self, peer: &Vec<u8>) -> (r: Result<(), NetworkError>)
        requires
            old(self).wf(),
            valid_id(peer@),
        ensures
            final(self).wf(),
            peer@ == old(self).local_id@ <==> (r matches Err(e) && e is SelfDial),
            peer@ != old(self).local_id@ && old(self).is_connected(peer@) <==> (r matches Err(e)
                && e is AlreadyConnected),
            r is Ok <==> peer@ != old(self).local_id@ && !old(self).is_connected(peer@),
            r is Ok ==> final(self).state_of(peer@) is Dialing,
            r is Err ==> *final(self) == *old(self),
            forall|q: Seq<u8>| q != peer@ ==> final(self).state_of(q) == old(self).state_of(q),
            forall|q: Seq<u8>| final(self).is_connected(q) == old(self).is_connected(q),
            final(self).events == old(self).events,
            final(self).outbox == old(self).outbox,
            final(self).pending == old(self).pending,
            final(self).meshes == old(self).meshes,
            final(self).subs == old(self).subs,
            final(self).seen == old(self).seen,
            final(self).table == old(self).table,
            final(self).local_id == old(self).local_id,
            final(self).local_record == old(self).local_record,
            final(self).mesh_high == old(self).mesh_high,
            final(self).mesh_low == old(self).mesh_low,
        {
        if bytes_eq(peer, &self.local_id) {
            return Err(NetworkError::SelfDial);
        }
        let ghost old_ps = self.peers@;
        match find_peer(&self.peers, peer) {
            Some(j) => {
                let connected = match self.peers[j].state {
                    ConnState::Connected => true,
                    _ => false,
                };
                if connected {
                    proof {
                        lemma_peer_idx(old_ps, peer@);
                    }
                    return Err(NetworkError::AlreadyConnected);
                }
                let updated = Peer {
                    id: copy_bytes(&self.peers[j].id),
                    state: ConnState::Dialing,
                    next_rpc_id: self.peers[j].next_rpc_id,
                };
                self.peers[j] = updated;
                proof {
                    lemma_peer_idx(old_ps, peer@);
                    assert forall|q: Seq<u8>| q != peer@ implies #[trigger] self.state_of(q)
                        == old(self).state_of(q) by {
                        lemma_peer_idx_update(old_ps, j as int, self.peers@[j as int], q);
                        lemma_peer_idx(old_ps, q);
                    }
                    assert forall|q: Seq<u8>| old(self).is_connected(q) implies (#[trigger]
                    peer_idx(self.peers@, q)) >= 0 && self.peers@[peer_idx(self.peers@, q)]
                        .next_rpc_id >= old_ps[peer_idx(old_ps, q)].next_rpc_id by {
                        lemma_peer_idx_update(old_ps, j as int, self.peers@[j as int], q);
                        lemma_peer_idx(old_ps, q);
                    }
                    lemma_peer_idx_update(old_ps, j as int, self.peers@[j as int], peer@);
                    assert(final(self).state_of(peer@) is Dialing);
                    lemma_wf_after_state_change(*old(self), *self, peer@);
                }
                Ok(())
            },
            None => {
                let fresh = Peer {
                    id: copy_bytes(peer),
                    state: ConnState::Dialing,
                    next_rpc_id: 1,
                };
                self.peers.push(fresh);
                proof {
                    lemma_peer_idx(old_ps, peer@);
                    assert forall|q: Seq<u8>| q != peer@ implies #[trigger] self.state_of(q)
                        == old(self).state_of(q) by {
                        lemma_peer_idx(old_ps, q);
                        lemma_peer_idx_push(old_ps, self.peers@.last(), q);
                    }
                    assert forall|q: Seq<u8>| old(self).is_connected(q) implies (#[trigger]
                    peer_idx(self.peers@, q)) >= 0 && self.peers@[peer_idx(self.peers@, q)]
                        .next_rpc_id >= old_ps[peer_idx(old_ps, q)].next_rpc_id by {
                        lemma_peer_idx(old_ps, q);
                        lemma_peer_idx_push(old_ps, self.peers@.last(), q);
                    }
                    lemma_peer_idx_push(old_ps, self.peers@.last(), peer@);
                    assert(final(self).state_of(peer@) is Dialing);
                    lemma_wf_after_state_change(*old(self), *self, peer@);
                }
                Ok(())
            },
        }
    }
}

/// After a change that only touches the target peer's entry (or appends one),
/// keeps every identifier, keeps every other peer's state and every
/// next-correlation counter, and does not leave the target `Connected` unless
/// it was, the service stays well-formed provided the untouched subsystems
/// are carried over.
pub proof fn lemma_wf_after_state_change(pre: Service, post: Service, p: Seq<u8>)
    requires
        pre.wf(),
        post.table == pre.table,
        post.local_id == pre.local_id,
        post.pending == pre.pending,
        post.meshes == pre.meshes,
        post.subs == pre.subs,
        post.seen == pre.seen,
        post.mesh_high == pre.mesh_high,
        forall|q: Seq<u8>| q != p ==> post.state_of(q) == pre.state_of(q),
        pre.is_connected(p) ==> post.is_connected(p),
        forall|i: int|
            0 <= i < post.peers@.len() ==> valid_id((#[trigger] post.peers@[i]).id@)
                && post.peers@[i].id@ != post.local_id@,
        forall|i: int, j: int|
            #![trigger post.peers@[i], post.peers@[j]]
            0 <= i < j < post.peers@.len() ==> post.peers@[i].id@ != post.peers@[j].id@,
        forall|q: Seq<u8>|
            pre.is_connected(q) ==> ((#[trigger] peer_idx(post.peers@, q)) >= 0
                && post.peers@[peer_idx(post.peers@, q)].next_rpc_id >= pre.peers@[peer_idx(
                pre.peers@,
                q,
            )].next_rpc_id),
    ensures
        post.wf(),
{
    assert forall|mi: int, j: int|
        #![trigger post.meshes@[mi].peers@[j]]
        0 <= mi < post.meshes@.len() && 0 <= j < post.meshes@[mi].peers@.len()
            implies post.is_connected(post.meshes@[mi].peers@[j]@) by {
        let q = post.meshes@[mi].peers@[j]@;
        assert(pre.is_connected(q));
        if q != p {
            assert(post.state_of(q) == pre.state_of(q));
        }
    }
    assert forall|i: int|
        0 <= i < post.pending@.len() implies post.is_connected(
        (#[trigger] post.pending@[i]).peer@,
    ) && post.pending@[i].rpc_id < post.peers@[peer_idx(
        post.peers@,
        post.pending@[i].peer@,
    )].next_rpc_id by {
        let q = post.pending@[i].peer@;
        assert(pre.is_connected(q));
        if q != p {
            assert(post.state_of(q) == pre.state_of(q));
        }
        assert(post.peers@[peer_idx(post.peers@, q)].next_rpc_id >= pre.peers@[peer_idx(
            pre.peers@,
            q,
        )].next_rpc_id);
    }
}

/// `mesh_idx` depends only on the topics, not on the membership lists.
pub proof fn lemma_mesh_idx_same_topics(ms1: Seq<Mesh>, ms2: Seq<Mesh>, t: Seq<u8>)
    requires
        ms1.len() == ms2.len(),
        forall|i: int| 0 <= i < ms1.len() ==> (#[trigger] ms1[i]).topic@ == ms2[i].topic@,
    ensures
        mesh_idx(ms1, t) == mesh_idx(ms2, t),
    decreases ms1.len(),
{
    if ms1.len() > 0 {
        assert(forall|i: int|
            0 <= i < ms1.drop_first().len() ==> ms1.drop_first()[i] == ms1[i + 1]);
        assert(forall|i: int|
            0 <= i < ms2.drop_first().len() ==> ms2.drop_first()[i] == ms2[i + 1]);
        lemma_mesh_idx_same_topics(ms1.drop_first(), ms2.drop_first(), t);
    }
}

/// The purge keeps pending entries pairwise distinct.
pub proof fn lemma_remove_pending_distinct(pp: Seq<PendingRpc>, p: Seq<u8>)
    requires
        forall|i: int, j: int|
            #![trigger pp[i], pp[j]]
            0 <= i < j < pp.len() ==> !(pp[i].peer@ == pp[j].peer@ && pp[i].rpc_id
                == pp[j].rpc_id),
    ensures
        forall|i: int, j: int|
            #![trigger remove_pending(pp, p)[i], remove_pending(pp, p)[j]]
            0 <= i < j < remove_pending(pp, p).len() ==> !(remove_pending(pp, p)[i].peer@
                == remove_pending(pp, p)[j].peer@ && remove_pending(pp, p)[i].rpc_id
                == remove_pending(pp, p)[j].rpc_id),
    decreases pp.len(),
{
    if pp.len() > 0 {
        let rest = pp.drop_first();
        assert(forall|i: int| 0 <= i < rest.len() ==> rest[i] == pp[i + 1]);
        lemma_remove_pending_distinct(rest, p);
        let rr = remove_pending(rest, p);
        if pp[0].peer@ != p {
            assert(remove_pending(pp, p) == seq![pp[0]] + rr);
            assert(remove_pending(pp, p)[0] == pp[0]);
            assert(forall|i: int| 0 <= i < rr.len() ==> (seq![pp[0]] + rr)[i + 1] == rr[i]);
            assert forall|i: int, j: int|
                0 <= i < j < remove_pending(pp, p).len() implies !(remove_pending(pp, p)[i].peer@
                == remove_pending(pp, p)[j].peer@ && remove_pending(pp, p)[i].rpc_id
                == remove_pending(pp, p)[j].rpc_id) by {
                if i == 0 {
                    lemma_remove_pending_membership(rest, p);
                    let e = rr[j - 1];
                    let k = choose|k: int| 0 <= k < rest.len() && rest[k] == e;
                    assert(pp[k + 1] == e);
                }
            }
        }
    }
}

impl Service {
    /// Records a completed connection: the peer is now `Connected`, a
    /// `PeerDialed` event is queued, and the peer is told about every local
    /// subscription and handed the local signed record. The `Hello`
    /// handshake request is the host's to send upon `PeerDialed` (the host
    /// owns its chain-status fields); the core guarantees its delivery and
    /// correlation once sent.
    pub fn on_connected(&mut self, peer: &Vec<u8>)
        requires
            old(self).wf(),
            valid_id(peer@),
            peer@ != old(self).local_id@,
        ensures
            final(self).wf(),
            final(self).is_connected(peer@),
            forall|q: Seq<u8>| q != peer@ ==> final(self).state_of(q) == old(self).state_of(q),
            final(self).events@.len() == old(self).events@.len() + 1,
            final(self).events@.take(old(self).events@.len() as int) == old(self).events@,
            ev_peer_dialed(final(self).events@.last(), peer@),
            final(self).outbox@.len() == old(self).outbox@.len() + old(self).subs@.len() + 1,
            final(self).outbox@.take(old(self).outbox@.len() as int) == old(self).outbox@,
            forall|i: int|
                0 <= i < old(self).subs@.len() ==> env_subscribe(
                    #[trigger] final(self).outbox@[old(self).outbox@.len() + i],
                    peer@,
                    old(self).subs@[i]@,
                ),
            env_record(
                final(self).outbox@.last(),
                peer@,
                old(self).local_record.node_id@,
                old(self).local_record.seq_no,
            ),
            final(self).pending == old(self).pending,
            final(self).meshes == old(self).meshes,
            final(self).subs == old(self).subs,
            final(self).seen == old(self).seen,
            final(self).table == old(self).table,
            final(self).local_id == old(self).local_id,
            final(self).local_record == old(self).local_record,
    {
        let ghost old_ps = self.peers@;
        match find_peer(&self.peers, peer) {
            Some(j) => {
                let updated = Peer {
                    id: copy_bytes(&self.peers[j].id),
                    state: ConnState::Connected,
                    next_rpc_id: self.peers[j].next_rpc_id,
                };
                self.peers[j] = updated;
                proof {
                    lemma_peer_idx(old_ps, peer@);
                    assert forall|q: Seq<u8>| q != peer@ implies #[trigger] self.state_of(q)
                        == old(self).state_of(q) by {
                        lemma_peer_idx_update(old_ps, j as int, self.peers@[j as int], q);
                        lemma_peer_idx(old_ps, q);
                    }
                    assert forall|q: Seq<u8>| old(self).is_connected(q) implies (#[trigger]
                    peer_idx(self.peers@, q)) >= 0 && self.peers@[peer_idx(self.peers@, q)]
                        .next_rpc_id >= old_ps[peer_idx(old_ps, q)].next_rpc_id by {
                        lemma_peer_idx_update(old_ps, j as int, self.peers@[j as int], q);
                        lemma_peer_idx(old_ps, q);
                    }
                    lemma_peer_idx_update(old_ps, j as int, self.peers@[j as int], peer@);
                    assert(self.is_connected(peer@));
                    lemma_wf_after_state_change(*old(self), *self, peer@);
                }
            },
            None => {
                let fresh = Peer {
                    id: copy_bytes(peer),
                    state: ConnState::Connected,
                    next_rpc_id: 1,
                };
                self.peers.push(fresh);
                proof {
                    lemma_peer_idx(old_ps, peer@);
                    assert forall|q: Seq<u8>| q != peer@ implies #[trigger] self.state_of(q)
                        == old(self).state_of(q) by {
                        lemma_peer_idx(old_ps, q);
                        lemma_peer_idx_push(old_ps, self.peers@.last(), q);
                    }
                    assert forall|q: Seq<u8>| old(self).is_connected(q) implies (#[trigger]
                    peer_idx(self.peers@, q)) >= 0 && self.peers@[peer_idx(self.peers@, q)]
                        .next_rpc_id >= old_ps[peer_idx(old_ps, q)].next_rpc_id by {
                        lemma_peer_idx(old_ps, q);
                        lemma_peer_idx_push(old_ps, self.peers@.last(), q);
                    }
                    lemma_peer_idx_push(old_ps, self.peers@.last(), peer@);
                    assert(self.is_connected(peer@));
                    lemma_wf_after_state_change(*old(self), *self, peer@);
                }
            },
        }
        self.events.push(Event::PeerDialed(copy_bytes(peer)));
        let ghost mid = *self;
        let mut k: usize = 0;
        while k < self.subs.len()
            invariant
                k <= self.subs@.len(),
                *self == (Service { outbox: self.outbox, ..mid }),
                self.outbox@.len() == mid.outbox@.len() + k,
                self.outbox@.take(mid.outbox@.len() as int) == mid.outbox@,
                forall|i: int|
                    0 <= i < k ==> env_subscribe(
                        #[trigger] self.outbox@[mid.outbox@.len() + i],
                        peer@,
                        mid.subs@[i]@,
                    ),
            decreases self.subs@.len() - k,
        {
            let env = Envelope {
                to: copy_bytes(peer),
                msg: WireMessage::Subscribe(copy_bytes(&self.subs[k])),
            };
            self.outbox.push(env);
            proof {
                assert(self.outbox@.take(mid.outbox@.len() as int) =~= mid.outbox@);
            }
            k += 1;
        }
        let rec = crate::identity::copy_record(&self.local_record);
        self.outbox.push(Envelope { to: copy_bytes(peer), msg: WireMessage::Record(rec) });
        proof {
            assert(self.outbox@.take(mid.outbox@.len() as int) =~= mid.outbox@);
            assert(self.events@.take(old(self).events@.len() as int) =~= old(self).events@);
            let jj = peer_idx(old_ps, peer@);
            assert forall|q: Seq<u8>| q != peer@ implies self.state_of(q) == old(self).state_of(
                q,
            ) by {
                lemma_peer_idx(old_ps, q);
                lemma_peer_idx(old_ps, peer@);
                if jj >= 0 {
                    lemma_peer_idx_update(old_ps, jj, self.peers@[jj], q);
                } else {
                    lemma_peer_idx_push(old_ps, self.peers@.last(), q);
                }
            }
        }
    }

    /// Records a failed dial attempt: a `Dialing` peer becomes
    /// `Disconnected` and a `DialFailed` event is queued; anything else is
    /// left alone. The failure is local to this one peer.
    pub fn on_dial_failed(&mut self, peer: &Vec<u8>)
        requires
            old(self).wf(),
            valid_id(peer@),
        ensures
            final(self).wf(),
            forall|q: Seq<u8>| q != peer@ ==> final(self).state_of(q) == old(self).state_of(q),
            old(self).state_of(peer@) is Dialing ==> final(self).state_of(peer@)
                is Disconnected && final(self).events@.len() == old(self).events@.len() + 1
                && final(self).events@.take(old(self).events@.len() as int) == old(self).events@
                && ev_dial_failed(final(self).events@.last(), peer@),
            !(old(self).state_of(peer@) is Dialing) ==> *final(self) == *old(self),
            final(self).outbox == old(self).outbox,
            final(self).pending == old(self).pending,
            final(self).meshes == old(self).meshes,
            final(self).subs == old(self).subs,
            final(self).seen == old(self).seen,
            final(self).table == old(self).table,
    {
        let ghost old_ps = self.peers@;
        let j = match find_peer(&self.peers, peer) {
            Some(j) => j,
            None => {
                return ;
            },
        };
        let dialing = match self.peers[j].state {
            ConnState::Dialing => true,
            _ => false,
        };
        if !dialing {
            proof {
                lemma_peer_idx(old_ps, peer@);
            }
            return ;
        }
        let updated = Peer {
            id: copy_bytes(&self.peers[j].id),
            state: ConnState::Disconnected,
            next_rpc_id: self.peers[j].next_rpc_id,
        };
        self.peers[j] = updated;
        proof {
            lemma_peer_idx(old_ps, peer@);
            assert forall|q: Seq<u8>| q != peer@ implies #[trigger] self.state_of(q) == old(
                self,
            ).state_of(q) by {
                lemma_peer_idx_update(old_ps, j as int, self.peers@[j as int], q);
                lemma_peer_idx(old_ps, q);
            }
            assert forall|q: Seq<u8>| old(self).is_connected(q) implies (#[trigger] peer_idx(
                self.peers@,
                q,
            )) >= 0 && self.peers@[peer_idx(self.peers@, q)].next_rpc_id >= old_ps[peer_idx(
                old_ps,
                q,
            )].next_rpc_id by {
                lemma_peer_idx_update(old_ps, j as int, self.peers@[j as int], q);
                lemma_peer_idx(old_ps, q);
            }
            lemma_peer_idx_update(old_ps, j as int, self.peers@[j as int], peer@);
            lemma_wf_after_state_change(*old(self), *self, peer@);
        }
        self.events.push(Event::DialFailed(copy_bytes(peer)));
        proof {
            assert(self.events@.take(old(self).events@.len() as int) =~= old(self).events@);
            assert forall|q: Seq<u8>| q != peer@ implies self.state_of(q) == old(self).state_of(
                q,
            ) by {
                lemma_peer_idx(old_ps, q);
                lemma_peer_idx(old_ps, peer@);
                lemma_peer_idx_update(old_ps, j as int, self.peers@[j as int], q);
            }
        }
    }

    /// Records a closed connection. The peer is `Disconnected`, every
    /// outstanding correlation towards it is destroyed, it leaves every
    /// topic mesh, and a `PeerDisconnected` event is queued; afterwards no
    /// pending correlation and no mesh membership refers to it.
    pub fn on_disconnected(&mut self, peer: &Vec<u8>)
        requires
            old(self).wf(),
            valid_id(peer@),
        ensures
            final(self).wf(),
            final(self).purged(peer@),
            final(self).state_of(peer@) is Disconnected,
            forall|q: Seq<u8>| q != peer@ ==> final(self).state_of(q) == old(self).state_of(q),
            forall|q: Seq<u8>, rid: u64|
                q != peer@ ==> (#[trigger] final(self).pending_has(q, rid)) == old(
                    self,
                ).pending_has(q, rid),
            forall|t: Seq<u8>, q: Seq<u8>|
                q != peer@ ==> (#[trigger] final(self).in_mesh(t, q)) == old(self).in_mesh(t, q),
            peer_idx(old(self).peers@, peer@) >= 0 ==> final(self).events@.len() == old(
                self,
            ).events@.len() + 1 && final(self).events@.take(old(self).events@.len() as int) == old(
                self,
            ).events@ && ev_peer_disconnected(final(self).events@.last(), peer@),
            peer_idx(old(self).peers@, peer@) == -1 ==> *final(self) == *old(self),
            final(self).outbox == old(self).outbox,
            final(self).subs == old(self).subs,
            final(self).seen == old(self).seen,
            final(self).table == old(self).table,
            final(self).local_id == old(self).local_id,
    {
        let ghost old_ps = self.peers@;
        let j = match find_peer(&self.peers, peer) {
            Some(j) => j,
            None => {
                proof {
                    lemma_peer_idx(old_ps, peer@);
                    assert forall|i: int|
                        0 <= i < self.pending@.len() implies (#[trigger] self.pending@[i]).peer@
                        != peer@ by {
                        assert(self.is_connected(self.pending@[i].peer@));
                    }
                    assert forall|mi: int, ji: int|
                        0 <= mi < self.meshes@.len() && 0 <= ji < self.meshes@[mi].peers@.len()
                            implies (#[trigger] self.meshes@[mi].peers@[ji])@ != peer@ by {
                        assert(self.is_connected(self.meshes@[mi].peers@[ji]@));
                    }
                }
                return ;
            },
        };
        let updated = Peer {
            id: copy_bytes(&self.peers[j].id),
            state: ConnState::Disconnected,
            next_rpc_id: self.peers[j].next_rpc_id,
        };
        self.peers[j] = updated;
        proof {
            lemma_peer_idx(old_ps, peer@);
            assert forall|q: Seq<u8>| q != peer@ implies #[trigger] self.state_of(q) == old(
                self,
            ).state_of(q) by {
                lemma_peer_idx_update(old_ps, j as int, self.peers@[j as int], q);
                lemma_peer_idx(old_ps, q);
            }
            lemma_peer_idx_update(old_ps, j as int, self.peers@[j as int], peer@);
        }
        retain_pending_not_peer(&mut self.pending, peer);
        let ghost mid = *self;
        let mut mi: usize = 0;
        while mi < self.meshes.len()
            invariant
                mi <= self.meshes@.len(),
                *self == (Service { meshes: self.meshes, ..mid }),
                self.meshes@.len() == mid.meshes@.len(),
                forall|i: int|
                    0 <= i < mi ==> (#[trigger] self.meshes@[i]).topic == mid.meshes@[i].topic
                        && self.meshes@[i].peers@ == remove_refs(mid.meshes@[i].peers@, peer@),
                forall|i: int|
                    mi <= i < mid.meshes@.len() ==> #[trigger] self.meshes@[i]
                        == mid.meshes@[i],
            decreases self.meshes@.len() - mi,
        {
            retain_not_peer(&mut self.meshes[mi].peers, peer);
            mi += 1;
        }
        self.events.push(Event::PeerDisconnected(copy_bytes(peer)));
        proof {
            let pre = *old(self);
            let post = *self;
            assert(post.events@.take(pre.events@.len() as int) =~= pre.events@);
            lemma_remove_pending_membership(pre.pending@, peer@);
            lemma_remove_pending_distinct(pre.pending@, peer@);
            // pending entries survive only for still-connected peers
            assert forall|i: int|
                0 <= i < post.pending@.len() implies post.is_connected(
                (#[trigger] post.pending@[i]).peer@,
            ) && post.pending@[i].rpc_id < post.peers@[peer_idx(
                post.peers@,
                post.pending@[i].peer@,
            )].next_rpc_id by {
                let e = post.pending@[i];
                let k = choose|k: int| 0 <= k < pre.pending@.len() && pre.pending@[k] == e;
                assert(pre.is_connected(e.peer@));
                assert(e.peer@ != peer@);
                lemma_peer_idx_update(old_ps, j as int, post.peers@[j as int], e.peer@);
                lemma_peer_idx(old_ps, e.peer@);
                assert(post.state_of(e.peer@) == pre.state_of(e.peer@));
            }
            // mesh membership survives only for other, still-connected peers
            assert forall|mi2: int, ji: int|
                0 <= mi2 < post.meshes@.len() && 0 <= ji < post.meshes@[mi2].peers@.len()
                    implies post.is_connected((#[trigger] post.meshes@[mi2].peers@[ji])@)
                    && post.meshes@[mi2].peers@[ji]@ != peer@ by {
                let q = post.meshes@[mi2].peers@[ji]@;
                lemma_remove_refs_membership(pre.meshes@[mi2].peers@, peer@, q);
                lemma_remove_refs_distinct(pre.meshes@[mi2].peers@, peer@);
                lemma_bytes_idx(pre.meshes@[mi2].peers@, q);
                assert(pre.is_connected(q));
                lemma_peer_idx_update(old_ps, j as int, post.peers@[j as int], q);
                lemma_peer_idx(old_ps, q);
                assert(post.state_of(q) == pre.state_of(q));
            }
            assert forall|mi2: int|
                0 <= mi2 < post.meshes@.len() implies bytes_idx(
                post.subs@,
                (#[trigger] post.meshes@[mi2]).topic@,
            ) >= 0 && post.meshes@[mi2].peers@.len() <= post.mesh_high by {
                lemma_remove_refs_membership(pre.meshes@[mi2].peers@, peer@, peer@);
            }
            assert forall|mi2: int, j1: int, j2: int|
                0 <= mi2 < post.meshes@.len() && 0 <= j1 < j2 < post.meshes@[mi2].peers@.len()
                    implies post.meshes@[mi2].peers@[j1]@ != post.meshes@[mi2].peers@[j2]@ by {
                lemma_remove_refs_distinct(pre.meshes@[mi2].peers@, peer@);
            }
            assert(post.wf());
            // membership of other peers is unchanged
            assert(mid.meshes == pre.meshes);
            assert forall|t: Seq<u8>, q: Seq<u8>| q != peer@ implies (#[trigger] post.in_mesh(
                t,
                q,
            )) == pre.in_mesh(t, q) by {
                assert(forall|i: int|
                    0 <= i < post.meshes@.len() ==> (#[trigger] post.meshes@[i]).topic@
                        == pre.meshes@[i].topic@);
                lemma_mesh_idx_same_topics(post.meshes@, pre.meshes@, t);
                lemma_mesh_idx(pre.meshes@, t);
                let w = mesh_idx(pre.meshes@, t);
                if w >= 0 {
                    assert(post.meshes@[w].peers@ == remove_refs(pre.meshes@[w].peers@, peer@));
                    lemma_remove_refs_membership(pre.meshes@[w].peers@, peer@, q);
                } else {
                    assert(bytes_idx(Seq::<Vec<u8>>::empty(), q) == -1);
                }
            }
            assert forall|q: Seq<u8>, rid: u64| q != peer@ implies (#[trigger] post.pending_has(
                q,
                rid,
            )) == pre.pending_has(q, rid) by {
                lemma_pending_idx(post.pending@, q, rid);
                lemma_pending_idx(pre.pending@, q, rid);
            }
            assert forall|i: int|
                0 <= i < post.pending@.len() implies (#[trigger] post.pending@[i]).peer@
                != peer@ by {}
            assert forall|q: Seq<u8>| q != peer@ implies post.state_of(q) == pre.state_of(q) by {
                lemma_peer_idx_update(old_ps, j as int, post.peers@[j as int], q);
                lemma_peer_idx(old_ps, q);
            }
            lemma_peer_idx_update(old_ps, j as int, post.peers@[j as int], peer@);
            assert(post.state_of(peer@) is Disconnected);
        }
    }
}


/// What handling a peer's signed record does, in full: the contract of
/// `on_record` between two service states.
pub open spec fn record_step(pre: Service, post: Service, from: Seq<u8>, rec: PeerRecord) -> bool {
    &&& (!pre.is_connected(from) ==> post == pre)
    &&& (pre.is_connected(from) && !(crate::identity::record_ok(rec) && wf_record(rec)) ==> post
        == pre)
    &&& (rec.node_id@ == pre.local_id@ ==> post == pre)
    &&& (forall|q: Seq<u8>| #[trigger] post.is_connected(q) == pre.is_connected(q))
    &&& post.outbox == pre.outbox
    &&& post.subs == pre.subs
    &&& post.meshes == pre.meshes
    &&& post.pending == pre.pending
    &&& post.seen == pre.seen
    &&& post.local_id == pre.local_id
    &&& post.events@.len() >= pre.events@.len()
    &&& post.events@.take(pre.events@.len() as int) == pre.events@
    &&& (forall|k: int|
        pre.events@.len() <= k < post.events@.len() ==> ev_peer_discovered(
            #[trigger] post.events@[k],
            rec.node_id@,
            rec.seq_no,
        ))
    &&& (pre.is_connected(from) && crate::identity::record_ok(rec) && wf_record(rec)
        && rec.node_id@ != pre.local_id@ && !pre.table.contains_id(rec.node_id@) ==> {
        &&& post.table.contains_id(rec.node_id@)
        &&& post.events@.len() == pre.events@.len() + 1
        &&& ev_peer_discovered(post.events@.last(), rec.node_id@, rec.seq_no)
        &&& (post.state_of(rec.node_id@) is Dialing || pre.is_connected(rec.node_id@))
    })
    &&& (pre.is_connected(from) && crate::identity::record_ok(rec) && wf_record(rec)
        && rec.node_id@ != pre.local_id@ && pre.table.contains_id(rec.node_id@) ==> {
        &&& (rec.seq_no > pre.table.record_of(rec.node_id@).seq_no ==> {
            &&& post.table.contains_id(rec.node_id@)
            &&& crate::identity::rec_like(post.table.record_of(rec.node_id@), rec)
            &&& post.events == pre.events
        })
        &&& (rec.seq_no <= pre.table.record_of(rec.node_id@).seq_no ==> post == pre)
    })
    &&& (forall|q: Seq<u8>|
        q != rec.node_id@ ==> #[trigger] post.state_of(q) == pre.state_of(q))
    &&& (pre.table.contains_id(rec.node_id@) ==> post.state_of(rec.node_id@) == pre.state_of(
        rec.node_id@,
    ))
    &&& (forall|q: Seq<u8>|
        q != rec.node_id@ ==> ((#[trigger] post.table.contains_id(q))
            ==> pre.table.contains_id(q)))
}

/// What answering a lookup query does, in full: the contract of
/// `handle_find_node` between two service states.
pub open spec fn find_node_step(pre: Service, post: Service, from: Seq<u8>, target: Seq<u8>) -> bool {
    &&& (!pre.is_connected(from) ==> post == pre)
    &&& (pre.is_connected(from) ==> {
        &&& post.outbox@.len() == pre.outbox@.len() + 1
        &&& post.outbox@.take(pre.outbox@.len() as int) == pre.outbox@
        &&& env_nodes(post.outbox@.last(), from)
        &&& (post.outbox@.last().msg matches WireMessage::Nodes(rs)
            && crate::discovery::lookup_answer(
            pre.table,
            target,
            crate::discovery::LOOKUP_ANSWER_SIZE as int,
            rs@,
        ))
        &&& post == (Service { outbox: post.outbox, ..pre })
    })
}

/// What ingesting a batch of lookup results does, in full: the contract of
/// `handle_nodes` between two service states.
pub open spec fn nodes_step(pre: Service, post: Service, from: Seq<u8>, records: Seq<PeerRecord>) -> bool {
    &&& (forall|q: Seq<u8>| #[trigger] post.is_connected(q) == pre.is_connected(q))
    &&& post.outbox == pre.outbox
    &&& post.subs == pre.subs
    &&& post.meshes == pre.meshes
    &&& post.pending == pre.pending
    &&& post.seen == pre.seen
    &&& post.events@.len() >= pre.events@.len()
    &&& post.events@.take(pre.events@.len() as int) == pre.events@
    &&& (pre.is_connected(from) ==> forall|i: int|
        0 <= i < records.len() && seed_usable(pre, #[trigger] records[i]) ==> (post.state_of(
            records[i].node_id@,
        ) is Dialing || pre.is_connected(records[i].node_id@) || pre.table.contains_id(
            records[i].node_id@,
        )))
    &&& (forall|q: Seq<u8>|
        (#[trigger] post.table.contains_id(q)) ==> pre.table.contains_id(q) || has_usable_id(
            pre,
            records,
            q,
        ))
}

/// A record a node will act on: it verifies, is well-formed, and speaks
/// about some node other than the local one.
pub open spec fn seed_usable(s: Service, rec: PeerRecord) -> bool {
    crate::identity::record_ok(rec) && wf_record(rec) && rec.node_id@ != s.local_id@
}

/// Some record of the list carries the identifier and is one the service
/// would act on.
pub open spec fn has_usable_id(s: Service, rs: Seq<PeerRecord>, q: Seq<u8>) -> bool {
    exists|ii: int|
        0 <= ii < rs.len() && (#[trigger] rs[ii]).node_id@ == q && seed_usable(s, rs[ii])
}

/// The event announcing a newly discovered peer record.
pub open spec fn ev_peer_discovered(e: Event, id: Seq<u8>, seq_no: u64) -> bool {
    &&& e matches Event::PeerDiscovered(r)
    &&& r.node_id@ == id
    &&& r.seq_no == seq_no
}

/// An envelope answering a lookup with known records.
pub open spec fn env_nodes(e: Envelope, to: Seq<u8>) -> bool {
    &&& e.to@ == to
    &&& e.msg matches WireMessage::Nodes(rs)
}

/// Somewhere after position `lo` the outbox queries `q` about the target.
pub open spec fn got_probe(out: Seq<Envelope>, lo: int, q: Seq<u8>, target: Seq<u8>) -> bool {
    exists|k: int| lo <= k < out.len() && env_find_node(#[trigger] out[k], q, target)
}

/// A probe already queued stays queued when the outbox only grows.
pub proof fn lemma_got_probe_extend(
    out1: Seq<Envelope>,
    out2: Seq<Envelope>,
    lo: int,
    q: Seq<u8>,
    target: Seq<u8>,
)
    requires
        0 <= lo,
        got_probe(out1, lo, q, target),
        out2.len() >= out1.len(),
        forall|k: int| 0 <= k < out1.len() ==> #[trigger] out2[k] == out1[k],
    ensures
        got_probe(out2, lo, q, target),
{
    let k = choose|k: int| lo <= k < out1.len() && env_find_node(#[trigger] out1[k], q, target);
    assert(env_find_node(out2[k], q, target));
}

/// An envelope querying a peer for records near a target.
pub open spec fn env_find_node(e: Envelope, to: Seq<u8>, target: Seq<u8>) -> bool {
    &&& e.to@ == to
    &&& e.msg matches WireMessage::FindNode(t)
    &&& t@ == target
}

impl Service {
    /// Builds a service around a fresh or configured identity, subscribes it
    /// to the configured topics, and enters the bootstrap records into the
    /// routing table, dialing each. Fails exactly when configured key
    /// material is unusable; a missing key is generated, never a failure.
    #[verifier::loop_isolation(false)]
    pub fn new(config: NetworkConfig) -> (r: Result<Service, NetworkError>)
        ensures
            r matches Ok(s) ==> {
                &&& s.wf()
                &&& s.events@.len() == 0
                &&& s.outbox@.len() == 0
                &&& s.pending@.len() == 0
                &&& forall|q: Seq<u8>| !s.is_connected(q)
                &&& forall|i: int|
                    0 <= i < config.topics@.len() ==> s.subscribed(
                        (#[trigger] config.topics@[i])@,
                    )
                &&& s.mesh_high == config.mesh_high
                &&& s.local_record.seq_no == 1
                &&& wf_record(s.local_record)
                &&& crate::identity::record_ok(s.local_record)
                &&& s.local_record.node_id@ == s.local_id@
                &&& s.local_record.tcp == config.libp2p_port
                &&& s.local_record.udp == config.discovery_port
            },
            config.secret_key_hex matches Some(h) ==> (valid_hex(h@) && valid_secret(hex_bytes(
                h@,
            )) ==> (r matches Ok(s) && s.local_id@ == node_id_of(hex_bytes(h@)))),
            config.secret_key_hex is None ==> r is Ok,
            r is Err <==> (config.secret_key_hex matches Some(h) && !(valid_hex(h@)
                && valid_secret(hex_bytes(h@)))),
    {
        let sk: Vec<u8> = match &config.secret_key_hex {
            Some(h) => match decode_hex(h) {
                Some(v) => v,
                None => {
                    return Err(NetworkError::InvalidKey);
                },
            },
            None => generate_secret_key(),
        };
        let local_id = match node_id_from_secret(&sk) {
            Some(id) => id,
            None => {
                return Err(NetworkError::InvalidKey);
            },
        };
        let local_record = match create_record(
            &sk,
            1,
            [127u8, 0u8, 0u8, 1u8],
            config.libp2p_port,
            config.discovery_port,
        ) {
            Some(rec) => rec,
            None => {
                return Err(NetworkError::InvalidKey);
            },
        };
        let ghost rec0 = local_record;
        let table = crate::discovery::RoutingTable::new(copy_bytes(&local_id));
        let mut s = Service {
            local_id,
            local_record,
            table,
            peers: Vec::new(),
            pending: Vec::new(),
            subs: Vec::new(),
            meshes: Vec::new(),
            seen: Vec::new(),
            events: Vec::new(),
            outbox: Vec::new(),
            mesh_low: config.mesh_low,
            mesh_high: config.mesh_high,
        };
        let mut t: usize = 0;
        while t < config.topics.len()
            invariant
                t <= config.topics@.len(),
                s.wf(),
                s.events@.len() == 0,
                s.outbox@.len() == 0,
                s.pending@.len() == 0,
                s.peers@.len() == 0,
                s.mesh_high == config.mesh_high,
                s.local_id == local_id,
                s.local_record == rec0,
                forall|i: int|
                    0 <= i < t ==> s.subscribed((#[trigger] config.topics@[i])@),
            decreases config.topics@.len() - t,
        {
            let ghost pre = s;
            let fresh = s.subscribe(&config.topics[t]);
            proof {
                if fresh && s.outbox@.len() > pre.outbox@.len() {
                    let k = pre.outbox@.len() as int;
                    assert(crate::gossip::announced_to_connected(pre, s.outbox@[k],
                        config.topics@[t as int]@));
                    let q = choose|q: Seq<u8>|
                        pre.is_connected(q) && env_subscribe(s.outbox@[k], q,
                            config.topics@[t as int]@);
                    lemma_peer_idx(pre.peers@, q);
                    assert(false);
                }
                assert(s.outbox@.len() == 0);
                assert forall|i: int|
                    0 <= i < t + 1 implies s.subscribed((#[trigger] config.topics@[i])@) by {
                    if i < t {
                        assert(pre.subscribed(config.topics@[i]@));
                        if !pre.subscribed(config.topics@[t as int]@) {
                            assert(s.subs@ =~= pre.subs@.push(s.subs@.last()));
                            lemma_bytes_idx(pre.subs@, config.topics@[i]@);
                            lemma_bytes_idx_push(pre.subs@, s.subs@.last(), config.topics@[i]@);
                        }
                    }
                }
            }
            t += 1;
        }
        s.bootstrap(&config.boot_nodes);
        proof {
            assert forall|q: Seq<u8>| !s.is_connected(q) by {
                lemma_peer_idx(s.peers@, q);
            }
        }
        Ok(s)
    }

    /// Enters each valid bootstrap record into the routing table and dials
    /// its node. Invalid records are dropped without error; nothing is
    /// queued and no connection state is established yet. Each valid seed
    /// is in the table at the moment of its insertion; it is not promised
    /// to remain there at return, since later seeds can overflow its bucket
    /// and evict it.
    #[verifier::loop_isolation(false)]
    pub fn bootstrap(&mut self, seeds: &Vec<PeerRecord>)
        requires
            old(self).wf(),
        ensures
            final(self).wf(),
            final(self).events == old(self).events,
            final(self).outbox == old(self).outbox,
            final(self).subs == old(self).subs,
            final(self).meshes == old(self).meshes,
            final(self).pending == old(self).pending,
            final(self).seen == old(self).seen,
            final(self).local_id == old(self).local_id,
            final(self).local_record == old(self).local_record,
            final(self).mesh_high == old(self).mesh_high,
            final(self).peers@.len() == 0 <== old(self).peers@.len() == 0 && seeds@.len() == 0,
            forall|q: Seq<u8>| final(self).is_connected(q) == old(self).is_connected(q),
            forall|i: int|
                0 <= i < seeds@.len() && seed_usable(*old(self), #[trigger] seeds@[i])
                    ==> (final(self).state_of(seeds@[i].node_id@) is Dialing || old(
                    self,
                ).is_connected(seeds@[i].node_id@)),
            (forall|i: int| 0 <= i < seeds@.len() ==> !seed_usable(*old(self), #[trigger] seeds@[i]))
                ==> final(self).table == old(self).table,
    {
        let mut i: usize = 0;
        while i < seeds.len()
            invariant
                i <= seeds@.len(),
                self.wf(),
                self.events == old(self).events,
                self.outbox == old(self).outbox,
                self.subs == old(self).subs,
                self.meshes == old(self).meshes,
                self.pending == old(self).pending,
                self.seen == old(self).seen,
                self.local_id == old(self).local_id,
                self.local_record == old(self).local_record,
                self.mesh_high == old(self).mesh_high,
                self.mesh_low == old(self).mesh_low,
                seeds@.len() == 0 ==> self.peers == old(self).peers,
                forall|q: Seq<u8>| self.is_connected(q) == old(self).is_connected(q),
                forall|ii: int|
                    0 <= ii < i && seed_usable(*old(self), #[trigger] seeds@[ii])
                        ==> (self.state_of(seeds@[ii].node_id@) is Dialing || old(
                        self,
                    ).is_connected(seeds@[ii].node_id@)),
                (forall|ii: int|
                    0 <= ii < i ==> !seed_usable(*old(self), #[trigger] seeds@[ii]))
                    ==> self.table == old(self).table,
            decreases seeds@.len() - i,
        {
            let ghost pre_iter = *self;
            let rec = &seeds[i];
            if rec.node_id.len() == 32 && crate::identity::verify_record(rec) {
                let id_copy = copy_bytes(&rec.node_id);
                let _ = self.table.insert(crate::identity::copy_record(rec));
                let ghost mid_iter = *self;
                let _ = self.dial(&id_copy);
                proof {
                    assert(forall|q: Seq<u8>| mid_iter.state_of(q) == pre_iter.state_of(q));
                    assert forall|ii: int|
                        0 <= ii < i + 1 && seed_usable(*old(self), #[trigger] seeds@[ii])
                            implies (self.state_of(seeds@[ii].node_id@) is Dialing || old(
                        self,
                    ).is_connected(seeds@[ii].node_id@)) by {
                        let id = seeds@[ii].node_id@;
                        if id == id_copy@ {
                            if !old(self).is_connected(id) {
                                assert(!mid_iter.is_connected(id));
                                assert(self.state_of(id) is Dialing);
                            }
                        } else {
                            assert(self.state_of(id) == mid_iter.state_of(id));
                        }
                    }
                }
            }
            i += 1;
        }
    }

    /// Handles a peer's signed record: it must verify and describe a node
    /// other than the local one; a record for a previously unknown identity
    /// surfaces as `PeerDiscovered` and the node is dialed. Records from
    /// unconnected peers and records that fail verification are dropped.
    pub fn on_record(&mut self, from: &Vec<u8>, rec: PeerRecord)
        requires
            old(self).wf(),
            valid_id(from@),
        ensures
            final(self).wf(),
            !old(self).is_connected(from@) ==> *final(self) == *old(self),
            forall|q: Seq<u8>| final(self).is_connected(q) == old(self).is_connected(q),
            final(self).outbox == old(self).outbox,
            final(self).subs == old(self).subs,
            final(self).meshes == old(self).meshes,
            final(self).pending == old(self).pending,
            final(self).seen == old(self).seen,
            final(self).local_id == old(self).local_id,
            final(self).events@.len() >= old(self).events@.len(),
            final(self).events@.take(old(self).events@.len() as int) == old(self).events@,
            forall|k: int|
                old(self).events@.len() <= k < final(self).events@.len() ==> ev_peer_discovered(
                    #[trigger] final(self).events@[k],
                    rec.node_id@,
                    rec.seq_no,
                ),
            old(self).is_connected(from@) && !(crate::identity::record_ok(rec) && wf_record(rec))
                ==> *final(self) == *old(self),
            old(self).is_connected(from@) && crate::identity::record_ok(rec) && wf_record(rec)
                && rec.node_id@ != old(self).local_id@ && !old(self).table.contains_id(
                rec.node_id@,
            ) ==> {
                &&& final(self).table.contains_id(rec.node_id@)
                &&& final(self).events@.len() == old(self).events@.len() + 1
                &&& ev_peer_discovered(final(self).events@.last(), rec.node_id@, rec.seq_no)
                &&& (final(self).state_of(rec.node_id@) is Dialing || old(self).is_connected(
                    rec.node_id@,
                ))
            },
            rec.node_id@ == old(self).local_id@ ==> *final(self) == *old(self),
            forall|q: Seq<u8>| q != rec.node_id@ ==> #[trigger] final(self).state_of(q) == old(
                self,
            ).state_of(q),
            old(self).table.contains_id(rec.node_id@) ==> final(self).state_of(rec.node_id@)
                == old(self).state_of(rec.node_id@),
            forall|q: Seq<u8>|
                q != rec.node_id@ ==> ((#[trigger] final(self).table.contains_id(q)) ==> old(
                    self,
                ).table.contains_id(q)),
            old(self).is_connected(from@) && crate::identity::record_ok(rec) && wf_record(rec)
                && rec.node_id@ != old(self).local_id@ && old(self).table.contains_id(
                rec.node_id@,
            ) ==> {
                &&& (rec.seq_no > old(self).table.record_of(rec.node_id@).seq_no ==> {
                    &&& final(self).table.contains_id(rec.node_id@)
                    &&& crate::identity::rec_like(final(self).table.record_of(rec.node_id@), rec)
                    &&& final(self).events == old(self).events
                })
                &&& (rec.seq_no <= old(self).table.record_of(rec.node_id@).seq_no ==> *final(self)
                    == *old(self))
            },
            record_step(*old(self), *final(self), from@, rec),
    {
        let connected = match find_peer(&self.peers, from) {
            Some(j) => match self.peers[j].state {
                ConnState::Connected => true,
                _ => false,
            },
            None => false,
        };
        if !connected {
            proof {
                assert(self.events@.take(self.events@.len() as int) =~= self.events@);
            }
            return ;
        }
        if !(rec.node_id.len() == 32 && crate::identity::verify_record(&rec)) {
            proof {
                assert(self.events@.take(self.events@.len() as int) =~= self.events@);
            }
            return ;
        }
        let id_copy = copy_bytes(&rec.node_id);
        let ghost pre_table = self.table;
        let rec_copy = crate::identity::copy_record(&rec);
        let ghost inserted = rec_copy;
        let is_new = match self.table.insert(rec_copy) {
            crate::discovery::InsertOutcome::Added => true,
            crate::discovery::InsertOutcome::AddedEvicted => true,
            _ => false,
        };
        proof {
            if is_new {
                crate::discovery::lemma_insert_new_contains(pre_table, self.table, inserted);
                assert(self.table.contains_id(rec.node_id@));
            }
            if rec.node_id@ != old(self).local_id@ && !pre_table.contains_id(rec.node_id@) {
                crate::distance::lemma_distance_zero_iff_equal(
                    pre_table.local_id@,
                    rec.node_id@,
                );
                crate::discovery::lemma_idx_of_id(
                    pre_table.buckets@[pre_table.bucket_of(rec.node_id@)]@,
                    rec.node_id@,
                );
                assert(is_new);
            }
        }
        if is_new {
            self.events.push(Event::PeerDiscovered(rec));
            let _ = self.dial(&id_copy);
        }
        proof {
            assert(self.events@.take(old(self).events@.len() as int) =~= old(self).events@);
        }
    }

    /// Answers a lookup query from a connected peer with every record the
    /// table knows; the querier ranks them by distance to its target.
    pub fn handle_find_node(&mut self, from: &Vec<u8>, target: &Vec<u8>)
        requires
            old(self).wf(),
            valid_id(from@),
            valid_id(target@),
        ensures
            final(self).wf(),
            !old(self).is_connected(from@) ==> *final(self) == *old(self),
            old(self).is_connected(from@) ==> {
                &&& final(self).outbox@.len() == old(self).outbox@.len() + 1
                &&& final(self).outbox@.take(old(self).outbox@.len() as int) == old(self).outbox@
                &&& env_nodes(final(self).outbox@.last(), from@)
                &&& (final(self).outbox@.last().msg matches WireMessage::Nodes(rs)
                    && crate::discovery::lookup_answer(
                    old(self).table,
                    target@,
                    crate::discovery::LOOKUP_ANSWER_SIZE as int,
                    rs@,
                ))
                &&& *final(self) == (Service { outbox: final(self).outbox, ..*old(self) })
            },
            find_node_step(*old(self), *final(self), from@, target@),
    {
        let connected = match find_peer(&self.peers, from) {
            Some(j) => match self.peers[j].state {
                ConnState::Connected => true,
                _ => false,
            },
            None => false,
        };
        if !connected {
            return ;
        }
        let records = self.table.closest_records(target, crate::discovery::LOOKUP_ANSWER_SIZE);
        self.outbox.push(Envelope { to: copy_bytes(from), msg: WireMessage::Nodes(records) });
        proof {
            assert(self.outbox@.take(old(self).outbox@.len() as int) =~= old(self).outbox@);
        }
    }

    /// Handles records answering a lookup: each is verified and offered to
    /// the table as if sent on its own.
    #[verifier::loop_isolation(false)]
    pub fn handle_nodes(&mut self, from: &Vec<u8>, records: Vec<PeerRecord>)
        requires
            old(self).wf(),
            valid_id(from@),
        ensures
            final(self).wf(),
            forall|q: Seq<u8>| final(self).is_connected(q) == old(self).is_connected(q),
            final(self).outbox == old(self).outbox,
            final(self).subs == old(self).subs,
            final(self).meshes == old(self).meshes,
            final(self).pending == old(self).pending,
            final(self).seen == old(self).seen,
            final(self).events@.len() >= old(self).events@.len(),
            final(self).events@.take(old(self).events@.len() as int) == old(self).events@,
            old(self).is_connected(from@) ==> forall|i: int|
                0 <= i < records@.len() && seed_usable(*old(self), #[trigger] records@[i])
                    ==> (final(self).state_of(records@[i].node_id@) is Dialing || old(
                    self,
                ).is_connected(records@[i].node_id@) || old(self).table.contains_id(
                    records@[i].node_id@,
                )),
            forall|q: Seq<u8>|
                (#[trigger] final(self).table.contains_id(q)) ==> old(self).table.contains_id(q)
                    || has_usable_id(*old(self), records@, q),
            nodes_step(*old(self), *final(self), from@, records@),
    {
        let mut i: usize = 0;
        proof {
            assert(self.events@.take(self.events@.len() as int) =~= self.events@);
        }
        while i < records.len()
            invariant
                i <= records@.len(),
                self.wf(),
                forall|q: Seq<u8>| self.is_connected(q) == old(self).is_connected(q),
                self.outbox == old(self).outbox,
                self.subs == old(self).subs,
                self.meshes == old(self).meshes,
                self.pending == old(self).pending,
                self.seen == old(self).seen,
                self.local_id == old(self).local_id,
                self.events@.len() >= old(self).events@.len(),
                self.events@.take(old(self).events@.len() as int) == old(self).events@,
                old(self).is_connected(from@) ==> forall|ii: int|
                    0 <= ii < i && seed_usable(*old(self), #[trigger] records@[ii]) ==> (
                    self.state_of(records@[ii].node_id@) is Dialing || old(self).is_connected(
                        records@[ii].node_id@,
                    ) || old(self).table.contains_id(records@[ii].node_id@)),
                forall|q: Seq<u8>|
                    (#[trigger] self.table.contains_id(q)) ==> old(self).table.contains_id(q)
                        || has_usable_id(*old(self), records@.take(i as int), q),
            decreases records@.len() - i,
        {
            let ghost pre = *self;
            let rec = crate::identity::copy_record(&records[i]);
            let ghost grec = rec;
            self.on_record(from, rec);
            proof {
                assert(self.events@.take(old(self).events@.len() as int) =~= old(self).events@);
                assert(grec.node_id@ == records@[i as int].node_id@);
                // table growth traces back to a usable record of the batch
                assert forall|q: Seq<u8>|
                    (#[trigger] self.table.contains_id(q)) implies old(self).table.contains_id(q)
                    || has_usable_id(*old(self), records@.take(i + 1), q) by {
                    if q != grec.node_id@ {
                        assert(pre.table.contains_id(q));
                        if !old(self).table.contains_id(q) {
                            assert(has_usable_id(*old(self), records@.take(i as int), q));
                            let w = choose|w: int|
                                0 <= w < records@.take(i as int).len() && (#[trigger] records@.take(
                                    i as int,
                                )[w]).node_id@ == q && seed_usable(
                                    *old(self),
                                    records@.take(i as int)[w],
                                );
                            assert(records@.take(i + 1)[w] == records@.take(i as int)[w]);
                            assert(has_usable_id(*old(self), records@.take(i + 1), q));
                        }
                    } else {
                        if !old(self).table.contains_id(q) {
                            if pre.table.contains_id(q) {
                                assert(has_usable_id(*old(self), records@.take(i as int), q));
                                let w = choose|w: int|
                                    0 <= w < records@.take(i as int).len() && (#[trigger]
                                    records@.take(i as int)[w]).node_id@ == q && seed_usable(
                                        *old(self),
                                        records@.take(i as int)[w],
                                    );
                                assert(records@.take(i + 1)[w] == records@.take(i as int)[w]);
                                assert(has_usable_id(*old(self), records@.take(i + 1), q));
                            } else {
                                // freshly entered: only a usable record is inserted
                                if !(crate::identity::record_ok(grec) && wf_record(grec)
                                    && grec.node_id@ != pre.local_id@ && pre.is_connected(
                                    from@,
                                )) {
                                    assert(*self == pre || self.table == pre.table);
                                    assert(false);
                                }
                                assert(crate::identity::record_ok(records@[i as int]));
                                assert(seed_usable(*old(self), records@[i as int]));
                                assert(records@.take(i + 1)[i as int] == records@[i as int]);
                                assert(has_usable_id(*old(self), records@.take(i + 1), q));
                            }
                        }
                    }
                }
                if old(self).is_connected(from@) {
                    assert forall|ii: int|
                        0 <= ii < i + 1 && seed_usable(*old(self), #[trigger] records@[ii])
                            implies (self.state_of(records@[ii].node_id@) is Dialing || old(
                        self,
                    ).is_connected(records@[ii].node_id@) || old(self).table.contains_id(
                        records@[ii].node_id@,
                    )) by {
                        let id = records@[ii].node_id@;
                        if !old(self).is_connected(id) && !old(self).table.contains_id(id) {
                            assert(pre.is_connected(from@));
                            assert(id != old(self).local_id@);
                            if ii < i {
                                // the invariant already places this identity
                                assert(pre.state_of(id) is Dialing);
                                if id != grec.node_id@ {
                                    assert(self.state_of(id) == pre.state_of(id));
                                } else {
                                    // the current call concerns the same
                                    // identity; whatever it did, the entry
                                    // stays dialing or was dialed again
                                    if crate::identity::record_ok(grec) && wf_record(grec) {
                                        if pre.table.contains_id(id) {
                                            assert(self.state_of(id) == pre.state_of(id));
                                        } else {
                                            assert(self.state_of(id) is Dialing
                                                || pre.is_connected(id));
                                        }
                                    } else {
                                        assert(*self == pre);
                                    }
                                }
                            } else {
                                // the record the call just handled
                                assert(crate::identity::rec_like(grec, records@[ii]));
                                assert(crate::identity::record_ok(grec) && wf_record(grec));
                                if pre.table.contains_id(id) {
                                    assert(has_usable_id(
                                        *old(self),
                                        records@.take(i as int),
                                        id,
                                    ));
                                    let w = choose|w: int|
                                        0 <= w < records@.take(i as int).len() && (#[trigger]
                                        records@.take(i as int)[w]).node_id@ == id
                                            && seed_usable(
                                            *old(self),
                                            records@.take(i as int)[w],
                                        );
                                    assert(records@.take(i as int)[w] == records@[w]);
                                    assert(pre.state_of(id) is Dialing);
                                    assert(self.state_of(id) == pre.state_of(id));
                                } else {
                                    assert(self.state_of(id) is Dialing || pre.is_connected(id));
                                }
                            }
                        }
                    }
                }
            }
            i += 1;
        }
    }

    /// Starts a lookup round towards a target identifier: every connected
    /// peer is asked for the records it knows near the target.
    #[verifier::loop_isolation(false)]
    pub fn start_lookup(&mut self, target: &Vec<u8>)
        requires
            old(self).wf(),
        ensures
            final(self).wf(),
            final(self).outbox@.len() >= old(self).outbox@.len(),
            final(self).outbox@.take(old(self).outbox@.len() as int) == old(self).outbox@,
            forall|k: int|
                old(self).outbox@.len() <= k < final(self).outbox@.len() ==> env_find_node(
                    #[trigger] final(self).outbox@[k],
                    final(self).outbox@[k].to@,
                    target@,
                ),
            forall|i: int|
                0 <= i < old(self).peers@.len() && (#[trigger] old(self).peers@[i]).state
                    is Connected ==> got_probe(
                    final(self).outbox@,
                    old(self).outbox@.len() as int,
                    old(self).peers@[i].id@,
                    target@,
                ),
            *final(self) == (Service { outbox: final(self).outbox, ..*old(self) }),
    {
        let ghost mid_state = *self;
        let mut i: usize = 0;
        while i < self.peers.len()
            invariant
                i <= self.peers@.len(),
                *self == (Service { outbox: self.outbox, ..mid_state }),
                self.outbox@.len() >= mid_state.outbox@.len(),
                forall|k: int|
                    0 <= k < mid_state.outbox@.len() ==> #[trigger] self.outbox@[k]
                        == mid_state.outbox@[k],
                forall|k: int|
                    mid_state.outbox@.len() <= k < self.outbox@.len() ==> env_find_node(
                        #[trigger] self.outbox@[k],
                        self.outbox@[k].to@,
                        target@,
                    ),
                forall|pi: int|
                    0 <= pi < i && (#[trigger] self.peers@[pi]).state is Connected ==> got_probe(
                        self.outbox@,
                        mid_state.outbox@.len() as int,
                        self.peers@[pi].id@,
                        target@,
                    ),
            decreases self.peers@.len() - i,
        {
            let ghost pre_push = self.outbox@;
            let connected = match self.peers[i].state {
                ConnState::Connected => true,
                _ => false,
            };
            if connected {
                let env = Envelope {
                    to: copy_bytes(&self.peers[i].id),
                    msg: WireMessage::FindNode(copy_bytes(target)),
                };
                self.outbox.push(env);
                proof {
                    let q = self.peers@[i as int].id@;
                    let last: int = self.outbox@.len() - 1;
                    assert(env_find_node(self.outbox@[last], q, target@));
                    assert(got_probe(self.outbox@, mid_state.outbox@.len() as int, q, target@));
                }
            }
            proof {
                assert forall|pi: int|
                    0 <= pi < i + 1 && (#[trigger] self.peers@[pi]).state is Connected
                        implies got_probe(
                    self.outbox@,
                    mid_state.outbox@.len() as int,
                    self.peers@[pi].id@,
                    target@,
                ) by {
                    if pi < i {
                        let qq = self.peers@[pi].id@;
                        assert(got_probe(pre_push, mid_state.outbox@.len() as int, qq, target@));
                        let k = choose|k: int|
                            mid_state.outbox@.len() <= k < pre_push.len() && env_find_node(
                                #[trigger] pre_push[k],
                                qq,
                                target@,
                            );
                        assert(self.outbox@[k] == pre_push[k]);
                        assert(env_find_node(self.outbox@[k], qq, target@));
                    }
                }
            }
            i += 1;
        }
        proof {
            assert(self.outbox@.take(mid_state.outbox@.len() as int) =~= mid_state.outbox@);
        }
    }

    /// Routes one inbound wire message from a peer into the subsystem it
    /// belongs to. Anything arriving from a peer without an established
    /// connection is dropped whole: a disconnected peer can no longer
    /// change any state or surface any event.
    pub fn on_wire(&mut self, from: &Vec<u8>, msg: WireMessage)
        requires
            old(self).wf(),
            valid_id(from@),
        ensures
            final(self).wf(),
            !old(self).is_connected(from@) ==> *final(self) == *old(self),
            old(self).is_connected(from@) ==> {
                &&& (msg matches WireMessage::Subscribe(t)
                    ==> crate::gossip::subscribe_announce_step(
                    *old(self),
                    *final(self),
                    from@,
                    t@,
                ))
                &&& (msg matches WireMessage::Unsubscribe(t)
                    ==> crate::gossip::unsubscribe_announce_step(
                    *old(self),
                    *final(self),
                    from@,
                    t@,
                ))
                &&& (msg matches WireMessage::Record(rec) ==> record_step(
                    *old(self),
                    *final(self),
                    from@,
                    rec,
                ))
                &&& (msg matches WireMessage::FindNode(t) ==> (t@.len() == 32 ==> find_node_step(
                    *old(self),
                    *final(self),
                    from@,
                    t@,
                )) && (t@.len() != 32 ==> *final(self) == *old(self)))
                &&& (msg matches WireMessage::Nodes(rs) ==> nodes_step(
                    *old(self),
                    *final(self),
                    from@,
                    rs@,
                ))
                &&& (msg matches WireMessage::Gossip { topic, message }
                    ==> crate::gossip::gossip_step(
                    *old(self),
                    *final(self),
                    from@,
                    topic@,
                    message,
                ))
                &&& (msg matches WireMessage::Request(rid, req) ==> crate::rpc::rpc_request_step(
                    *old(self),
                    *final(self),
                    from@,
                    rid,
                    req,
                ))
                &&& (msg matches WireMessage::Response(rid, resp)
                    ==> crate::rpc::rpc_response_step(
                    *old(self),
                    *final(self),
                    from@,
                    rid,
                    resp,
                ))
            },
    {
        let connected = match find_peer(&self.peers, from) {
            Some(j) => match self.peers[j].state {
                ConnState::Connected => true,
                _ => false,
            },
            None => false,
        };
        if !connected {
            return ;
        }
        match msg {
            WireMessage::Subscribe(topic) => self.handle_subscribe(from, &topic),
            WireMessage::Unsubscribe(topic) => self.handle_unsubscribe(from, &topic),
            WireMessage::Record(rec) => self.on_record(from, rec),
            WireMessage::FindNode(target) => {
                // a malformed target is dropped like any other protocol error
                if target.len() == 32 {
                    self.handle_find_node(from, &target);
                }
            },
            WireMessage::Nodes(records) => self.handle_nodes(from, records),
            WireMessage::Gossip { topic, message } => self.handle_gossip(from, &topic, message),
            WireMessage::Request(rid, req) => self.on_rpc_request(from, rid, req),
            WireMessage::Response(rid, resp) => self.on_rpc_response(from, rid, resp),
        }
    }
}

impl Service {
    /// Current size of a topic's mesh.
    pub fn mesh_peer_count(&self, topic: &Vec<u8>) -> (r: usize)
        ensures
            r == self.mesh_peers(topic@).len(),
    {
        match find_mesh(&self.meshes, topic) {
            Some(mi) => self.meshes[mi].peers.len(),
            None => 0,
        }
    }
}

/// Disconnection purges state: once a peer is no longer connected — and in
/// particular after its transition to `Disconnected` — a well-formed service
/// holds no pending correlation and no mesh membership for it, so no later
/// step can emit an event referencing either; inbound traffic from it is
/// dropped whole by `on_wire`.
pub proof fn lemma_disconnected_peer_purged(s: Service, p: Seq<u8>)
    requires
        s.wf(),
        !(s.state_of(p) is Connected),
    ensures
        s.purged(p),
{
    assert forall|i: int|
        0 <= i < s.pending@.len() implies (#[trigger] s.pending@[i]).peer@ != p by {
        assert(s.is_connected(s.pending@[i].peer@));
    }
    assert forall|mi: int, j: int|
        #![trigger s.meshes@[mi].peers@[j]]
        0 <= mi < s.meshes@.len() && 0 <= j < s.meshes@[mi].peers@.len()
            implies s.meshes@[mi].peers@[j]@ != p by {
        assert(s.is_connected(s.meshes@[mi].peers@[j]@));
    }
}

/// How many peers one lookup round queries: the closest known records.
pub const LOOKUP_FANOUT: usize = 3;

/// The envelope probes the identity of one of the given candidate records.
pub open spec fn probe_of(cands: Seq<PeerRecord>, e: Envelope, target: Seq<u8>) -> bool {
    exists|i: int| 0 <= i < cands.len() && env_find_node(e, (#[trigger] cands[i]).node_id@, target)
}

impl Service {
    /// Distance from the target to the nearest known record; the identifier
    /// width plus one when the table is empty, so any real distance beats it.
    pub fn closest_known_distance(&self, target: &Vec<u8>) -> (r: u16)
        requires
            self.wf(),
            valid_id(target@),
        ensures
            self.table.count() == 0 ==> r == 257,
            forall|q: Seq<u8>|
                #[trigger] self.table.contains_id(q) ==> r <= xor_distance(target@, q),
            self.table.count() > 0 ==> r <= 256,
            self.table.count() > 0 ==> exists|q: Seq<u8>|
                #[trigger] self.table.contains_id(q) && xor_distance(target@, q) == r,
    {
        let nearest = self.table.closest_records(target, 1);
        if nearest.len() == 0 {
            proof {
                assert forall|q: Seq<u8>| #[trigger] self.table.contains_id(q) implies 257
                    <= xor_distance(target@, q) by {
                    crate::distance::lemma_distance_bound(self.local_id@, q);
                    crate::discovery::lemma_idx_of_id(
                        self.table.buckets@[self.table.bucket_of(q)]@,
                        q,
                    );
                    let w = crate::discovery::idx_of_id(
                        self.table.buckets@[self.table.bucket_of(q)]@,
                        q,
                    );
                    self.table.lemma_count_in_range(self.table.bucket_of(q), w);
                }
            }
            return 257;
        }
        let r = crate::distance::distance(target, &nearest[0].node_id);
        proof {
            crate::distance::lemma_distance_bound(target@, nearest@[0].node_id@);
            assert(self.table.contains_id(nearest@[0].node_id@));
            assert forall|q: Seq<u8>| #[trigger] self.table.contains_id(q) implies r
                <= xor_distance(target@, q) by {
                if !crate::discovery::has_id(nearest@, q) {
                    assert(xor_distance(target@, nearest@[0].node_id@) <= xor_distance(
                        target@,
                        q,
                    ));
                } else {
                    let w = choose|w: int|
                        0 <= w < nearest@.len() && (#[trigger] nearest@[w]).node_id@ == q;
                    assert(w == 0);
                }
            }
        }
        r
    }

    /// One lookup round per the iterative algorithm: queries the closest
    /// known records' nodes — those currently connected — for records near
    /// the target, and dials the rest so the driver can connect them for a
    /// later round. Returns the candidates it selected.
    #[verifier::loop_isolation(false)]
    pub fn lookup_round(&mut self, target: &Vec<u8>) -> (cands: Vec<PeerRecord>)
        requires
            old(self).wf(),
            valid_id(target@),
        ensures
            final(self).wf(),
            crate::discovery::lookup_answer(
                old(self).table,
                target@,
                LOOKUP_FANOUT as int,
                cands@,
            ),
            final(self).outbox@.len() >= old(self).outbox@.len(),
            final(self).outbox@.take(old(self).outbox@.len() as int) == old(self).outbox@,
            forall|k: int|
                old(self).outbox@.len() <= k < final(self).outbox@.len() ==> probe_of(
                    cands@,
                    #[trigger] final(self).outbox@[k],
                    target@,
                ),
            forall|i: int|
                0 <= i < cands@.len() && old(self).is_connected(
                    (#[trigger] cands@[i]).node_id@,
                ) ==> got_probe(
                    final(self).outbox@,
                    old(self).outbox@.len() as int,
                    cands@[i].node_id@,
                    target@,
                ),
            forall|q: Seq<u8>| final(self).is_connected(q) == old(self).is_connected(q),
            final(self).events == old(self).events,
            final(self).pending == old(self).pending,
            final(self).meshes == old(self).meshes,
            final(self).subs == old(self).subs,
            final(self).seen == old(self).seen,
            final(self).table == old(self).table,
            final(self).local_id == old(self).local_id,
    {
        let cands = self.table.closest_records(target, LOOKUP_FANOUT);
        let ghost base_out = self.outbox@;
        let mut i: usize = 0;
        while i < cands.len()
            invariant
                i <= cands@.len(),
                self.wf(),
                self.outbox@.len() >= base_out.len(),
                forall|k: int|
                    0 <= k < base_out.len() ==> #[trigger] self.outbox@[k] == base_out[k],
                forall|k: int|
                    base_out.len() <= k < self.outbox@.len() ==> probe_of(
                        cands@,
                        #[trigger] self.outbox@[k],
                        target@,
                    ),
                forall|ii: int|
                    0 <= ii < i && old(self).is_connected((#[trigger] cands@[ii]).node_id@)
                        ==> got_probe(
                        self.outbox@,
                        base_out.len() as int,
                        cands@[ii].node_id@,
                        target@,
                    ),
                forall|q: Seq<u8>| self.is_connected(q) == old(self).is_connected(q),
                forall|ii: int|
                    0 <= ii < cands@.len() ==> wf_record(#[trigger] cands@[ii])
                        && cands@[ii].node_id@ != self.local_id@,
                self.events == old(self).events,
                self.pending == old(self).pending,
                self.meshes == old(self).meshes,
                self.subs == old(self).subs,
                self.seen == old(self).seen,
                self.table == old(self).table,
                self.local_id == old(self).local_id,
                self.local_record == old(self).local_record,
                self.mesh_high == old(self).mesh_high,
                self.mesh_low == old(self).mesh_low,
            decreases cands@.len() - i,
        {
            let ghost pre_push = self.outbox@;
            let id = copy_bytes(&cands[i].node_id);
            let connected = match find_peer(&self.peers, &id) {
                Some(j) => match self.peers[j].state {
                    ConnState::Connected => true,
                    _ => false,
                },
                None => false,
            };
            if connected {
                let env = Envelope {
                    to: copy_bytes(&id),
                    msg: WireMessage::FindNode(copy_bytes(target)),
                };
                self.outbox.push(env);
                proof {
                    let last: int = self.outbox@.len() - 1;
                    assert(env_find_node(self.outbox@[last], cands@[i as int].node_id@, target@));
                    assert(probe_of(cands@, self.outbox@[last], target@));
                    assert(got_probe(self.outbox@, base_out.len() as int, cands@[i as int]
                        .node_id@, target@));
                }
            } else {
                proof {
                    lemma_peer_idx(self.peers@, id@);
                }
                let _ = self.dial(&id);
            }
            proof {
                assert forall|ii: int|
                    0 <= ii < i + 1 && old(self).is_connected((#[trigger] cands@[ii]).node_id@)
                        implies got_probe(
                    self.outbox@,
                    base_out.len() as int,
                    cands@[ii].node_id@,
                    target@,
                ) by {
                    if ii < i {
                        lemma_got_probe_extend(
                            pre_push,
                            self.outbox@,
                            base_out.len() as int,
                            cands@[ii].node_id@,
                            target@,
                        );
                    }
                }
            }
            i += 1;
        }
        proof {
            assert(self.outbox@.take(base_out.len() as int) =~= base_out);
        }
        cands
    }

    /// One step of the iterative lookup, the round decision included: when
    /// rounds remain and the table now holds a record strictly closer to the
    /// target than the previous round's best, a round of queries goes out
    /// and the new best distance comes back; otherwise the lookup is over
    /// and nothing is sent. The host loops: ingest answers, then step again
    /// with the returned best; the first step starts from the sentinel 257,
    /// one above any real distance.
    pub fn lookup_step(&mut self, target: &Vec<u8>, prev_best: u16, rounds_left: u16) -> (r:
        Option<(u16, Vec<PeerRecord>)>)
        requires
            old(self).wf(),
            valid_id(target@),
            prev_best <= 257,
        ensures
            final(self).wf(),
            r is None ==> *final(self) == *old(self),
            r is None && rounds_left > 0 ==> forall|q: Seq<u8>|
                #[trigger] old(self).table.contains_id(q) ==> xor_distance(target@, q)
                    >= prev_best,
            r matches Some(p) ==> {
                &&& rounds_left > 0
                &&& p.0 < prev_best
                &&& exists|q: Seq<u8>|
                    #[trigger] old(self).table.contains_id(q) && xor_distance(target@, q) == p.0
                &&& forall|q: Seq<u8>|
                    #[trigger] old(self).table.contains_id(q) ==> p.0 <= xor_distance(
                        target@,
                        q,
                    )
                &&& crate::discovery::lookup_answer(
                    old(self).table,
                    target@,
                    LOOKUP_FANOUT as int,
                    p.1@,
                )
                &&& final(self).outbox@.take(old(self).outbox@.len() as int) == old(self).outbox@
                &&& forall|k: int|
                    old(self).outbox@.len() <= k < final(self).outbox@.len() ==> probe_of(
                        p.1@,
                        #[trigger] final(self).outbox@[k],
                        target@,
                    )
                &&& forall|i: int|
                    0 <= i < p.1@.len() && old(self).is_connected((#[trigger] p.1@[i]).node_id@)
                        ==> got_probe(
                        final(self).outbox@,
                        old(self).outbox@.len() as int,
                        p.1@[i].node_id@,
                        target@,
                    )
                &&& final(self).events == old(self).events
                &&& final(self).table == old(self).table
            },
    {
        if rounds_left == 0 {
            return None;
        }
        let best = self.closest_known_distance(target);
        if best == 257 || best >= prev_best {
            return None;
        }
        let cands = self.lookup_round(target);
        Some((best, cands))
    }
}

} // verus!
