use vstd::prelude::*;
use crate::bytes_util::{append_bytes, copy_bytes};
use crate::identity::PeerRecord;

verus! {

/// Handshake body exchanged on a fresh connection: chain identity and sync
/// status. Validation policy lives in the host; the core only delivers it.
#[derive(Debug, Clone, PartialEq, Eq)]
pub struct HelloMessage {
    pub fork_version: [u8; 4],
    pub finalized_root: Vec<u8>,
    pub finalized_epoch: u64,
    pub head_root: Vec<u8>,
    pub head_slot: u64,
}

/// Request bodies of the request/response protocol.
#[derive(Debug, Clone, PartialEq, Eq)]
pub enum RpcRequest {
    Hello(HelloMessage),
    Goodbye(u64),
}

/// Response bodies of the request/response protocol.
#[derive(Debug, Clone, PartialEq, Eq)]
pub enum RpcResponse {
    Hello(HelloMessage),
}

/// A correlated message of the request/response protocol, tagged with the
/// correlation id assigned by the requesting side.
#[derive(Debug, Clone, PartialEq, Eq)]
pub enum RpcEvent {
    Request(u64, RpcRequest),
    Response(u64, RpcResponse),
}

/// A gossip payload: a tagged opaque body, immutable once published.
#[derive(Debug, Clone, PartialEq, Eq)]
pub enum PubsubMessage {
    Block(Vec<u8>),
    Attestation(Vec<u8>),
}

/// Identifier of a gossip message, derived from its content alone: a tag byte
/// for the kind followed by the body. Equal ids mean equal content.
pub open spec fn message_id_spec(m: PubsubMessage) -> Seq<u8> {
    match m {
        PubsubMessage::Block(data) => seq![0u8] + data@,
        PubsubMessage::Attestation(data) => seq![1u8] + data@,
    }
}

/// Computes a message's deduplication identifier.
pub fn message_id(m: &PubsubMessage) -> (r: Vec<u8>)
    ensures
        r@ == message_id_spec(*m),
{
    let mut v: Vec<u8> = Vec::new();
    match m {
        PubsubMessage::Block(data) => {
            v.push(0u8);
            append_bytes(&mut v, data);
        },
        PubsubMessage::Attestation(data) => {
            v.push(1u8);
            append_bytes(&mut v, data);
        },
    }
    proof {
        assert(v@ =~= message_id_spec(*m));
    }
    v
}

/// Copies a gossip message; the copy carries the same content.
pub fn copy_message(m: &PubsubMessage) -> (r: PubsubMessage)
    ensures
        message_id_spec(r) == message_id_spec(*m),
{
    match m {
        PubsubMessage::Block(data) => PubsubMessage::Block(copy_bytes(data)),
        PubsubMessage::Attestation(data) => PubsubMessage::Attestation(copy_bytes(data)),
    }
}

/// A message one node sends to another over the wire.
#[derive(Debug, Clone, PartialEq, Eq)]
pub enum WireMessage {
    /// Announce interest in a topic.
    Subscribe(Vec<u8>),
    /// Withdraw interest in a topic.
    Unsubscribe(Vec<u8>),
    /// The sender's signed peer record, offered after connecting.
    Record(PeerRecord),
    /// A lookup query for records near a target identifier.
    FindNode(Vec<u8>),
    /// Records answering a lookup query.
    Nodes(Vec<PeerRecord>),
    /// A gossip message propagated through a topic mesh.
    Gossip { topic: Vec<u8>, message: PubsubMessage },
    /// A correlated request.
    Request(u64, RpcRequest),
    /// A correlated response.
    Response(u64, RpcResponse),
}

/// An outbound wire message together with its destination.
#[derive(Debug, Clone, PartialEq, Eq)]
pub struct Envelope {
    pub to: Vec<u8>,
    pub msg: WireMessage,
}

/// Events surfaced to the host; produced by the subsystems, merged by the
/// service, and consumed exactly once in production order.
#[derive(Debug, Clone, PartialEq, Eq)]
pub enum Event {
    /// An outbound connection completed.
    PeerDialed(Vec<u8>),
    /// An outbound connection attempt failed; nothing else is affected.
    DialFailed(Vec<u8>),
    /// A connection closed; all state for the peer has been purged.
    PeerDisconnected(Vec<u8>),
    /// A connected peer joined the mesh of the named topic.
    PeerSubscribed(Vec<u8>, Vec<u8>),
    /// A gossip message seen for the first time on a subscribed topic.
    PubsubMessage { source: Vec<u8>, topic: Vec<u8>, message: PubsubMessage },
    /// A verified record for a previously unknown peer entered the table.
    PeerDiscovered(PeerRecord),
    /// A correlated request or response from a connected peer.
    Rpc(Vec<u8>, RpcEvent),
}

} // verus!
