use eth2_network::bytes_util::bytes_eq;
use eth2_network::distance::distance;
use eth2_network::gossip::is_recognized_topic;
use eth2_network::hex_codec::{decode_hex, encode_hex};
use eth2_network::identity::{
    create_record, generate_secret_key, generate_secret_keys, merge, node_id_from_secret,
    verify_record, MergeDecision,
};
use eth2_network::messages::{
    Event, HelloMessage, PubsubMessage, RpcEvent, RpcRequest, RpcResponse,
};
use eth2_network::service::{build_config, Service};

fn topic() -> Vec<u8> {
    b"/eth2/beacon_block/ssz".to_vec()
}

fn make_node(port: u16) -> Service {
    let mut config = build_config(port, vec![], None);
    config.topics = vec![topic()];
    Service::new(config).unwrap()
}

fn connect_pair(a: &mut Service, b: &mut Service) {
    let id_a = a.local_id().clone();
    let id_b = b.local_id().clone();
    let _ = a.dial(&id_b);
    a.on_connected(&id_b);
    b.on_connected(&id_a);
}

fn exchange(a: &mut Service, b: &mut Service) {
    loop {
        let mut moved = false;
        let from_a = a.local_id().clone();
        for env in a.take_outbox() {
            moved = true;
            if &env.to == b.local_id() {
                b.on_wire(&from_a, env.msg);
            }
        }
        let from_b = b.local_id().clone();
        for env in b.take_outbox() {
            moved = true;
            if &env.to == a.local_id() {
                a.on_wire(&from_b, env.msg);
            }
        }
        if !moved {
            break;
        }
    }
}

#[test]
fn test_distance_symmetry() {
    let mut a = vec![0u8; 32];
    let mut b = vec![0u8; 32];
    a[0] = 0x80;
    b[31] = 0x01;
    assert_eq!(distance(&a, &b), distance(&b, &a));
    assert_eq!(distance(&a, &b), 256);
    // equal identifiers are at the zero distance and never enter a bucket
    assert_eq!(distance(&a, &a), 0);
    let mut c = vec![0u8; 32];
    c[31] = 0x05;
    let d = vec![0u8; 32];
    assert_eq!(distance(&c, &d), 3);
    assert_eq!(distance(&d, &c), 3);
}

#[test]
fn test_merge_retains_newest() {
    let sk = generate_secret_key();
    let older = create_record(&sk, 1, [127, 0, 0, 1], 9000, 9000).unwrap();
    let newer = create_record(&sk, 2, [127, 0, 0, 1], 9001, 9001).unwrap();
    // whichever arrives second, the record with the higher sequence number wins
    assert_eq!(merge(&older, &newer), MergeDecision::Replace);
    assert_eq!(merge(&newer, &older), MergeDecision::Ignore);
    assert_eq!(merge(&newer, &newer), MergeDecision::Ignore);
}

#[test]
fn test_created_record_verifies() {
    let sk = generate_secret_key();
    let rec = create_record(&sk, 1, [10, 0, 0, 2], 9000, 9001).unwrap();
    assert!(verify_record(&rec));
    assert_eq!(rec.seq_no, 1);
    assert_eq!(rec.ip, [10, 0, 0, 2]);
    assert_eq!(rec.tcp, 9000);
    assert_eq!(rec.udp, 9001);
    assert_eq!(rec.node_id.len(), 32);
    assert_eq!(&rec.node_id, &node_id_from_secret(&sk).unwrap());
    // a tampered field no longer matches the signed contents
    let mut forged = rec.clone();
    forged.seq_no = 7;
    assert!(!verify_record(&forged));
    let mut forged_port = rec.clone();
    forged_port.tcp = 1;
    assert!(!verify_record(&forged_port));
}

#[test]
fn test_hex_codec() {
    let bytes = vec![0xab, 0x01, 0x00, 0xff];
    let encoded = encode_hex(&bytes);
    assert_eq!(encoded, "ab0100ff");
    assert_eq!(encoded, hex::encode(&bytes));
    assert_eq!(decode_hex(&encoded).unwrap(), bytes);
    assert_eq!(decode_hex(&"AB0100FF".to_string()).unwrap(), bytes);
    assert!(decode_hex(&"abc".to_string()).is_none());
    assert!(decode_hex(&"zz".to_string()).is_none());
}

#[test]
fn test_generate_secret_keys_close_to_bootstrap() {
    let keys = generate_secret_keys(3).unwrap();
    assert_eq!(keys.len(), 4);
    let boot_sk = decode_hex(keys[3].as_ref().unwrap()).unwrap();
    let boot_id = node_id_from_secret(&boot_sk).unwrap();
    for key in keys.iter().take(3) {
        let hex_str = key.as_ref().unwrap();
        assert_eq!(hex_str.len(), 64);
        let sk = decode_hex(hex_str).unwrap();
        let id = node_id_from_secret(&sk).unwrap();
        // every generated node sits in the bootstrap node's outermost buckets
        assert!(distance(&boot_id, &id) > 253);
    }
}

#[test]
fn test_topic_namespace() {
    assert!(is_recognized_topic(&topic()));
    assert!(is_recognized_topic(&b"/eth2/beacon_attestation/ssz".to_vec()));
    assert!(!is_recognized_topic(&b"/other/beacon_block/ssz".to_vec()));
    assert!(!is_recognized_topic(&b"/eth".to_vec()));
}

#[test]
fn test_rpc_correlation_roundtrip() {
    let mut a = make_node(9000);
    let mut b = make_node(9001);
    connect_pair(&mut a, &mut b);
    exchange(&mut a, &mut b);
    a.poll();
    b.poll();
    let hello = HelloMessage {
        fork_version: [0, 0, 0, 0],
        finalized_root: vec![0; 32],
        finalized_epoch: 1,
        head_root: vec![0; 32],
        head_slot: 1,
    };
    let peer_b = b.local_id().clone();
    let rid = a
        .send_request(&peer_b, RpcRequest::Hello(hello.clone()))
        .unwrap();
    assert_eq!(rid, 1);
    assert_eq!(a.pending_request_count(&peer_b), 1);
    exchange(&mut a, &mut b);
    // the responder surfaces the request and echoes a response with the id
    let mut request_seen = 0;
    let peer_a = a.local_id().clone();
    for ev in b.poll() {
        if let Event::Rpc(_, RpcEvent::Request(id, RpcRequest::Hello(body))) = ev {
            assert_eq!(id, 1);
            assert_eq!(body, hello);
            request_seen += 1;
            b.send_response(&peer_a, id, RpcResponse::Hello(body))
                .unwrap();
        }
    }
    assert_eq!(request_seen, 1);
    exchange(&mut a, &mut b);
    // the sender observes exactly one matched event carrying the body
    let mut matched = 0;
    for ev in a.poll() {
        if let Event::Rpc(_, RpcEvent::Response(id, RpcResponse::Hello(body))) = ev {
            assert_eq!(id, 1);
            assert_eq!(body, hello);
            matched += 1;
        }
    }
    assert_eq!(matched, 1);
    assert_eq!(a.pending_request_count(&peer_b), 0);
}

#[test]
fn test_unmatched_response_never_surfaces() {
    let mut a = make_node(9000);
    let mut b = make_node(9001);
    connect_pair(&mut a, &mut b);
    exchange(&mut a, &mut b);
    a.poll();
    let hello = HelloMessage {
        fork_version: [0, 0, 0, 0],
        finalized_root: vec![0; 32],
        finalized_epoch: 1,
        head_root: vec![0; 32],
        head_slot: 1,
    };
    // a response with an id that is not pending is a protocol error: dropped
    let from_b = b.local_id().clone();
    a.on_rpc_response(&from_b, 42, RpcResponse::Hello(hello));
    for ev in a.poll() {
        if let Event::Rpc(_, RpcEvent::Response(_, _)) = ev {
            panic!("an unmatched response surfaced as a matched event");
        }
    }
}

#[test]
fn test_disconnect_purges_state() {
    let mut a = make_node(9000);
    let mut b = make_node(9001);
    connect_pair(&mut a, &mut b);
    exchange(&mut a, &mut b);
    let peer_b = b.local_id().clone();
    assert_eq!(a.mesh_peer_count(&topic()), 1);
    let hello = HelloMessage {
        fork_version: [0, 0, 0, 0],
        finalized_root: vec![0; 32],
        finalized_epoch: 1,
        head_root: vec![0; 32],
        head_slot: 1,
    };
    a.send_request(&peer_b, RpcRequest::Hello(hello.clone()))
        .unwrap();
    assert_eq!(a.pending_request_count(&peer_b), 1);
    a.poll();
    a.take_outbox();
    a.on_disconnected(&peer_b);
    // the pending correlation and the mesh membership are gone
    assert_eq!(a.pending_request_count(&peer_b), 0);
    assert_eq!(a.mesh_peer_count(&topic()), 0);
    let events = a.poll();
    assert!(matches!(events[..], [Event::PeerDisconnected(_)]));
    // nothing the disconnected peer sends has any further effect
    a.on_rpc_response(&peer_b, 1, RpcResponse::Hello(hello));
    a.on_wire(
        &peer_b,
        eth2_network::messages::WireMessage::Gossip {
            topic: topic(),
            message: PubsubMessage::Block(vec![1, 2, 3]),
        },
    );
    assert!(a.poll().is_empty());
    assert!(a.take_outbox().is_empty());
}

#[test]
fn test_idempotent_subscription() {
    let mut a = make_node(9000);
    let mut b = make_node(9001);
    connect_pair(&mut a, &mut b);
    exchange(&mut a, &mut b);
    assert_eq!(a.mesh_peer_count(&topic()), 1);
    let mut subscribed_events = 0;
    for ev in a.poll() {
        if let Event::PeerSubscribed(_, t) = ev {
            if t == topic() {
                subscribed_events += 1;
            }
        }
    }
    assert_eq!(subscribed_events, 1);
    // the node's own repeated subscribe is a no-op
    assert!(!a.subscribe(&topic()));
    assert!(a.take_outbox().is_empty());
    // a peer's repeated announcement adds no duplicate entry and no event
    let peer_b = b.local_id().clone();
    a.handle_subscribe(&peer_b, &topic());
    assert_eq!(a.mesh_peer_count(&topic()), 1);
    assert!(a.poll().is_empty());
}

#[test]
fn test_publish_requires_subscription() {
    let mut a = make_node(9000);
    assert!(a
        .publish(&b"/eth2/voluntary_exit/ssz".to_vec(), PubsubMessage::Block(vec![]))
        .is_err());
    assert!(a.publish(&topic(), PubsubMessage::Block(vec![])).is_ok());
}

#[test]
fn test_bad_secret_key_is_fatal() {
    let mut config = build_config(9000, vec![], Some("not hex".to_string()));
    assert!(Service::new(config).is_err());
    config = build_config(9000, vec![], Some("ab".to_string()));
    assert!(Service::new(config).is_err());
    // a configured valid key pins the identity
    let sk = generate_secret_key();
    let hex_key = encode_hex(&sk);
    let node = Service::new(build_config(9000, vec![], Some(hex_key))).unwrap();
    assert_eq!(node.local_id(), &node_id_from_secret(&sk).unwrap());
}

#[test]
fn test_routing_table_rejects_self() {
    let sk = generate_secret_key();
    let hex_key = encode_hex(&sk);
    let mut config = build_config(9000, vec![], Some(hex_key));
    let own_record = create_record(&sk, 1, [127, 0, 0, 1], 9000, 9000).unwrap();
    config.boot_nodes = vec![own_record];
    let node = Service::new(config).unwrap();
    // a node keeps no routing entry about itself
    assert_eq!(node.known_peer_count(), 0);
}

#[test]
fn test_bytes_eq() {
    assert!(bytes_eq(&vec![1, 2, 3], &vec![1, 2, 3]));
    assert!(!bytes_eq(&vec![1, 2, 3], &vec![1, 2, 4]));
    assert!(!bytes_eq(&vec![1, 2], &vec![1, 2, 3]));
}

#[test]
fn test_cancel_request() {
    let mut a = make_node(9000);
    let mut b = make_node(9001);
    connect_pair(&mut a, &mut b);
    exchange(&mut a, &mut b);
    a.poll();
    a.take_outbox();
    let hello = HelloMessage {
        fork_version: [0, 0, 0, 0],
        finalized_root: vec![0; 32],
        finalized_epoch: 1,
        head_root: vec![0; 32],
        head_slot: 1,
    };
    let peer_b = b.local_id().clone();
    let rid = a
        .send_request(&peer_b, RpcRequest::Hello(hello.clone()))
        .unwrap();
    a.take_outbox();
    assert_eq!(a.pending_request_count(&peer_b), 1);
    assert!(a.cancel_request(&peer_b, rid));
    assert_eq!(a.pending_request_count(&peer_b), 0);
    assert!(!a.cancel_request(&peer_b, rid));
    // the connection is untouched and no event surfaces
    assert!(a.poll().is_empty());
    // a late response to the cancelled id never surfaces as matched
    a.on_rpc_response(&peer_b, rid, RpcResponse::Hello(hello));
    assert!(a.poll().is_empty());
}

#[test]
fn test_mesh_refill_below_low_watermark() {
    let mut a = make_node(9000);
    let mut b = make_node(9001);
    let id_a = a.local_id().clone();
    let id_b = b.local_id().clone();
    let _ = a.dial(&id_b);
    a.on_connected(&id_b);
    b.on_connected(&id_a);
    // deliver only a's announcements: b's are lost in transit
    for env in a.take_outbox() {
        b.on_wire(&id_a, env.msg);
    }
    b.take_outbox();
    assert_eq!(a.mesh_peer_count(&topic()), 0);
    assert_eq!(b.mesh_peer_count(&topic()), 1);
    // b's mesh is fine, but a's sits below the low watermark; maintenance by
    // b re-announces its subscription and a's mesh refills
    b.maintain_meshes();
    let refills = b.take_outbox();
    assert!(!refills.is_empty());
    for env in refills {
        if &env.to == a.local_id() {
            a.on_wire(&id_b, env.msg);
        }
    }
    assert_eq!(a.mesh_peer_count(&topic()), 1);
}

#[test]
fn test_lookup_step_rounds() {
    let mut b = make_node(9001);
    let rec_b = b.local_record().clone();
    let mut config = build_config(9000, vec![rec_b], None);
    config.topics = vec![topic()];
    let mut a = Service::new(config).unwrap();
    let id_b = b.local_id().clone();
    a.on_connected(&id_b);
    b.on_connected(a.local_id().clone().as_ref());
    a.take_outbox();
    let target = a.local_id().clone();
    let expected = distance(&target, &id_b);
    // the first round goes out towards the one known record
    let first = a.lookup_step(&target, 257, 3);
    let (best, cands) = first.unwrap();
    assert_eq!(best, expected);
    assert_eq!(cands.len(), 1);
    assert_eq!(&cands[0].node_id, &id_b);
    let probes = a.take_outbox();
    assert!(probes
        .iter()
        .any(|e| matches!(&e.msg, eth2_network::messages::WireMessage::FindNode(t) if t == &target)
            && &e.to == &id_b));
    // no closer record appeared, so the lookup terminates
    assert!(a.lookup_step(&target, expected, 2).is_none());
    // an exhausted round budget also terminates it
    assert!(a.lookup_step(&target, 257, 0).is_none());
}
