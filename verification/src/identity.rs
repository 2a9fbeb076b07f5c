use vstd::prelude::*;
use crate::bytes_util::{bytes_eq, copy_bytes, ip_eq};
use crate::distance::{distance, valid_id, xor_distance};
use crate::hex_codec::{encode_hex, hex_bytes, lemma_hex_roundtrip};
use enr::EnrKey;

verus! {

/// Node identifier derived from a secret signing key: the keccak-256 digest of
/// the uncompressed secp256k1 public key, 32 bytes.
pub uninterp spec fn node_id_of(sk: Seq<u8>) -> Seq<u8>;

/// True of byte strings the key decoder accepts as a secp256k1 secret
/// scalar: a nonzero value below the group order. The decoder zero-pads
/// short inputs, so besides 32-byte scalars it also accepts encodings of 24
/// to 31 bytes; keys this crate generates are always 32 bytes.
pub uninterp spec fn valid_secret(sk: Seq<u8>) -> bool;

/// Fields recovered from the textual form of a signed record, when it parses
/// and its signature verifies and it advertises a full IPv4 endpoint:
/// node id, sequence number, address, TCP port, UDP port.
pub uninterp spec fn record_decode_of(blob: Seq<char>) -> Option<(Seq<u8>, u64, Seq<u8>, u16, u16)>;

/// A signed, versioned peer record: identity, sequence number, one advertised
/// IPv4 endpoint, the record's signature, and its signed textual form.
#[derive(Debug, Clone, PartialEq, Eq)]
pub struct PeerRecord {
    pub node_id: Vec<u8>,
    pub seq_no: u64,
    pub ip: [u8; 4],
    pub tcp: u16,
    pub udp: u16,
    pub signature: Vec<u8>,
    pub blob: String,
}

/// A well-formed record carries a full-width node identifier.
pub open spec fn wf_record(r: PeerRecord) -> bool {
    valid_id(r.node_id@)
}

/// A record whose textual form parses, verifies, and matches its plain fields.
pub open spec fn record_ok(r: PeerRecord) -> bool {
    record_decode_of(r.blob@) == Some((r.node_id@, r.seq_no, r.ip@, r.tcp, r.udp))
}

/// Relies on k256::ecdsa::SigningKey::random (through enr's re-export) and
/// rand::rng: a freshly generated secp256k1 key, as its 32 secret bytes.
#[verifier::external_body]
fn generate_key_bytes() -> (r: Vec<u8>)
    ensures
        r@.len() == 32,
        valid_secret(r@),
{
    let key = enr::k256::ecdsa::SigningKey::random(&mut rand::rng());
    key.to_bytes().as_slice().to_vec()
}

/// Relies on k256::ecdsa::SigningKey::from_slice, which succeeds exactly on a
/// valid secret scalar, and on enr::NodeId::From over the derived public key.
#[verifier::external_body]
fn derive_node_id(sk: &Vec<u8>) -> (r: Option<Vec<u8>>)
    ensures
        r is Some <==> valid_secret(sk@),
        r matches Some(v) ==> v@ == node_id_of(sk@) && v@.len() == 32,
{
    let key = match enr::k256::ecdsa::SigningKey::from_slice(sk.as_slice()) {
        Ok(k) => k,
        Err(_) => return None,
    };
    Some(enr::NodeId::from(key.public()).raw().to_vec())
}

/// Relies on enr::Builder::build with a k256 key: signs the record under the
/// `v4` identity scheme (randomized ECDSA, so only the signature's size and
/// validity can be stated), and on Enr::to_base64 for the textual form,
/// which Enr's FromStr parses back to the same contents.
#[verifier::external_body]
fn build_signed_record(sk: &Vec<u8>, seq_no: u64, ip: &[u8; 4], tcp: u16, udp: u16) -> (r: Option<
    (Vec<u8>, Vec<u8>, String),
>)
    ensures
        r matches Some(t) ==> {
            &&& t.0@ == node_id_of(sk@)
            &&& t.0@.len() == 32
            &&& t.1@.len() == 64
            &&& record_decode_of(t.2@) == Some((t.0@, seq_no, ip@, tcp, udp))
        },
        r is Some <== valid_secret(sk@) && seq_no >= 1,
{
    let key = match enr::k256::ecdsa::SigningKey::from_slice(sk.as_slice()) {
        Ok(k) => k,
        Err(_) => return None,
    };
    let record = enr::Enr::<enr::k256::ecdsa::SigningKey>::builder()
        .seq(seq_no)
        .ip4((*ip).into())
        .tcp4(tcp)
        .udp4(udp)
        .build(&key)
        .ok()?;
    Some((record.node_id().raw().to_vec(), record.signature().to_vec(), record.to_base64()))
}

/// Relies on Enr's FromStr: parses the base64 textual form, rejecting records
/// whose signature does not verify; yields the fields named above when the
/// record advertises a full IPv4 endpoint.
#[verifier::external_body]
fn parse_signed_record(blob: &String) -> (r: Option<(Vec<u8>, u64, [u8; 4], u16, u16)>)
    ensures
        r matches Some(t) ==> record_decode_of(blob@) == Some((t.0@, t.1, t.2@, t.3, t.4))
            && t.0@.len() == 32,
        r is None ==> record_decode_of(blob@) is None,
{
    let record: enr::Enr<enr::k256::ecdsa::SigningKey> = match blob.as_str().parse() {
        Ok(e) => e,
        Err(_) => return None,
    };
    let ip = record.ip4()?;
    let tcp = record.tcp4()?;
    let udp = record.udp4()?;
    Some((record.node_id().raw().to_vec(), record.seq(), ip.octets(), tcp, udp))
}

/// Generates a fresh identity and returns its secret key bytes.
pub fn generate_secret_key() -> (r: Vec<u8>)
    ensures
        r@.len() == 32,
        valid_secret(r@),
{
    generate_key_bytes()
}

/// Derives the node identifier belonging to a secret key; `None` exactly when
/// the bytes are not a valid secret scalar.
pub fn node_id_from_secret(sk: &Vec<u8>) -> (r: Option<Vec<u8>>)
    ensures
        r is Some <==> valid_secret(sk@),
        r matches Some(v) ==> v@ == node_id_of(sk@) && valid_id(v@),
{
    derive_node_id(sk)
}

/// Builds and signs a record about the local node. Succeeds whenever the key
/// is valid and the sequence number is positive; the result then carries the
/// derived identity, the given endpoint, and a verifying signed form.
pub fn create_record(sk: &Vec<u8>, seq_no: u64, ip: [u8; 4], tcp: u16, udp: u16) -> (r: Option<
    PeerRecord,
>)
    ensures
        r matches Some(rec) ==> {
            &&& wf_record(rec)
            &&& record_ok(rec)
            &&& rec.node_id@ == node_id_of(sk@)
            &&& rec.seq_no == seq_no
            &&& rec.ip@ == ip@
            &&& rec.tcp == tcp
            &&& rec.udp == udp
            &&& rec.signature@.len() == 64
        },
        r is Some <== valid_secret(sk@) && seq_no >= 1,
{
    match build_signed_record(sk, seq_no, &ip, tcp, udp) {
        Some((node_id, signature, blob)) => Some(
            (PeerRecord { node_id, seq_no, ip, tcp, udp, signature, blob }),
        ),
        None => None,
    }
}

/// Checks an incoming record: its signed textual form must parse, its
/// signature verify, and its plain fields match the signed contents.
pub fn verify_record(rec: &PeerRecord) -> (r: bool)
    ensures
        r == record_ok(*rec),
{
    match parse_signed_record(&rec.blob) {
        Some((node_id, seq_no, ip, tcp, udp)) => {
            bytes_eq(&node_id, &rec.node_id) && seq_no == rec.seq_no && ip_eq(&ip, &rec.ip)
                && tcp == rec.tcp && udp == rec.udp
        },
        None => false,
    }
}

/// What a receiver does with an incoming record for an identity it already
/// knows: replace the stored record, or ignore the incoming one.
#[derive(Debug, Clone, Copy, PartialEq, Eq)]
pub enum MergeDecision {
    Replace,
    Ignore,
}

/// Replace exactly when the incoming record carries a strictly newer sequence
/// number; records are never edited in place.
pub open spec fn merge_spec(existing: PeerRecord, incoming: PeerRecord) -> MergeDecision {
    if incoming.seq_no > existing.seq_no {
        MergeDecision::Replace
    } else {
        MergeDecision::Ignore
    }
}

/// The record retained after merging an incoming record into an existing one.
pub open spec fn merged_record(existing: PeerRecord, incoming: PeerRecord) -> PeerRecord {
    if merge_spec(existing, incoming) is Replace {
        incoming
    } else {
        existing
    }
}

/// Decides between an existing record and an incoming one for the same id.
pub fn merge(existing: &PeerRecord, incoming: &PeerRecord) -> (r: MergeDecision)
    ensures
        r == merge_spec(*existing, *incoming),
{
    if incoming.seq_no > existing.seq_no {
        MergeDecision::Replace
    } else {
        MergeDecision::Ignore
    }
}

/// Record versioning is monotone: of two records for one identity with
/// sequence numbers `s1 < s2`, merging retains the `s2` record whichever
/// arrives first.
pub proof fn lemma_merge_retains_newest(r1: PeerRecord, r2: PeerRecord)
    requires
        r1.node_id@ == r2.node_id@,
        r1.seq_no < r2.seq_no,
    ensures
        merged_record(r1, r2) == r2,
        merged_record(r2, r1) == r2,
{
}

/// Node identifier belonging to a hex-encoded secret key.
pub open spec fn hex_key_id(s: Seq<char>) -> Seq<u8> {
    node_id_of(hex_bytes(s))
}

/// How many fresh keys a single draw may try before giving up.
pub const KEY_DRAW_ATTEMPTS: usize = 100000;

/// Draws fresh keys until one lands within the outermost buckets of the given
/// identifier (log2 distance above 253); such a peer is discoverable from
/// there in a single lookup round. Gives up after a bounded number of draws.
fn draw_close_key(anchor: &Vec<u8>) -> (r: Option<(Vec<u8>, Vec<u8>)>)
    requires
        valid_id(anchor@),
    ensures
        r matches Some(p) ==> {
            &&& valid_secret(p.0@)
            &&& p.0@.len() == 32
            &&& p.1@ == node_id_of(p.0@)
            &&& valid_id(p.1@)
            &&& xor_distance(anchor@, p.1@) > 253
        },
{
    let mut tries: usize = 0;
    while tries < KEY_DRAW_ATTEMPTS
        invariant
            valid_id(anchor@),
        decreases KEY_DRAW_ATTEMPTS - tries,
    {
        let sk = generate_secret_key();
        let id = node_id_from_secret(&sk).unwrap();
        if distance(anchor, &id) > 253 {
            return Some((sk, id));
        }
        tries += 1;
    }
    None
}

/// Secret keys for `n` nodes plus one bootstrap node (last), hex-encoded.
/// Every node identity lies within the bootstrap node's outermost buckets
/// (log2 distance above 253), which lets a single complete lookup round
/// discover the whole population. `None` only if random drawing gives up.
pub fn generate_secret_keys(n: usize) -> (r: Option<Vec<Option<String>>>)
    requires
        n < usize::MAX,
    ensures
        r matches Some(v) ==> {
            &&& v@.len() == n + 1
            &&& forall|i: int|
                0 <= i <= n ==> ((#[trigger] v@[i]) matches Some(s) && crate::hex_codec::valid_hex(
                    s@,
                ) && s@.len() == 64 && valid_secret(hex_bytes(s@)))
            &&& forall|i: int|
                0 <= i < n ==> ((#[trigger] v@[i]) matches Some(s) && v@[n as int] matches Some(b)
                    ==> xor_distance(hex_key_id(s@), hex_key_id(b@)) > 253)
        },
{
    let boot_sk = generate_secret_key();
    let boot_id = node_id_from_secret(&boot_sk).unwrap();
    let mut out: Vec<Option<String>> = Vec::new();
    while out.len() < n
        invariant
            n < usize::MAX,
            valid_secret(boot_sk@),
            boot_id@ == node_id_of(boot_sk@),
            valid_id(boot_id@),
            out@.len() <= n,
            forall|i: int|
                0 <= i < out@.len() ==> ((#[trigger] out@[i]) matches Some(s)
                    && crate::hex_codec::valid_hex(s@) && s@.len() == 64 && valid_secret(
                    hex_bytes(s@),
                ) && xor_distance(hex_key_id(s@), node_id_of(boot_sk@)) > 253),
        decreases n - out.len(),
    {
        let (sk, id) = match draw_close_key(&boot_id) {
            Some(p) => p,
            None => return None,
        };
        let s = encode_hex(&sk);
        proof {
            lemma_hex_roundtrip(sk@);
            crate::distance::lemma_distance_symmetric(boot_id@, id@);
        }
        out.push(Some(s));
    }
    let boot_hex = encode_hex(&boot_sk);
    proof {
        lemma_hex_roundtrip(boot_sk@);
    }
    out.push(Some(boot_hex));
    Some(out)
}

/// Field-for-field equality of two records' contents.
pub open spec fn rec_like(a: PeerRecord, b: PeerRecord) -> bool {
    &&& a.node_id@ == b.node_id@
    &&& a.seq_no == b.seq_no
    &&& a.ip@ == b.ip@
    &&& a.tcp == b.tcp
    &&& a.udp == b.udp
    &&& a.signature@ == b.signature@
    &&& a.blob@ == b.blob@
}

/// Copies a record; the copy carries the same contents.
pub fn copy_record(r: &PeerRecord) -> (c: PeerRecord)
    ensures
        rec_like(c, *r),
        c.node_id@ == r.node_id@,
        c.seq_no == r.seq_no,
        c.ip@ == r.ip@,
        c.tcp == r.tcp,
        c.udp == r.udp,
{
    PeerRecord {
        node_id: copy_bytes(&r.node_id),
        seq_no: r.seq_no,
        ip: r.ip,
        tcp: r.tcp,
        udp: r.udp,
        signature: copy_bytes(&r.signature),
        blob: r.blob.clone(),
    }
}

} // verus!
