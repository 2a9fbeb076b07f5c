use eth2_network::identity::{generate_secret_keys, PeerRecord};
use eth2_network::messages::{Event, HelloMessage, PubsubMessage, RpcEvent, RpcRequest};
use eth2_network::service::{build_config, NetworkConfig, Service};

fn beacon_block_topic() -> Vec<u8> {
    b"/eth2/beacon_block/ssz".to_vec()
}

fn build_test_config(
    port: u16,
    boot_nodes: Vec<PeerRecord>,
    secret_key: Option<String>,
) -> NetworkConfig {
    let mut config = build_config(port, boot_nodes, secret_key);
    config.topics = vec![
        beacon_block_topic(),
        b"/eth2/beacon_attestation/ssz".to_vec(),
    ];
    config
}

fn build_libp2p_instance(
    port: u16,
    boot_nodes: Vec<PeerRecord>,
    secret_key: Option<String>,
) -> Service {
    Service::new(build_test_config(port, boot_nodes, secret_key)).unwrap()
}

fn get_enr(node: &Service) -> PeerRecord {
    node.local_record().clone()
}

// Returns the kademlia log distance between two nodes; zero for equal ids.
fn get_distance(node1: &Vec<u8>, node2: &Vec<u8>) -> u16 {
    eth2_network::distance::distance(node1, node2)
}

// Completes a connection between two nodes of the driver's population.
fn connect(nodes: &mut Vec<Service>, i: usize, j: usize) {
    let id_i = nodes[i].local_id().clone();
    let id_j = nodes[j].local_id().clone();
    let _ = nodes[i].dial(&id_j);
    nodes[i].on_connected(&id_j);
    nodes[j].on_connected(&id_i);
}

// Delivers queued wire traffic between the nodes until nothing moves.
fn run_until_quiet(nodes: &mut Vec<Service>) {
    loop {
        let mut moved = false;
        for i in 0..nodes.len() {
            let from = nodes[i].local_id().clone();
            let envs = nodes[i].take_outbox();
            if !envs.is_empty() {
                moved = true;
            }
            for env in envs {
                let dest = nodes.iter().position(|n| n.local_id() == &env.to);
                if let Some(j) = dest {
                    nodes[j].on_wire(&from, env.msg);
                }
            }
        }
        if !moved {
            break;
        }
    }
}

// Constructs and fully interconnects n nodes without discovery.
fn build_nodes(n: usize, start_port: Option<u16>) -> Vec<Service> {
    let base_port = start_port.unwrap_or(9000);
    let mut nodes: Vec<Service> = (0..n)
        .map(|k| build_libp2p_instance(base_port + k as u16, vec![], None))
        .collect();
    for i in 0..n {
        for j in i..n {
            if i != j {
                connect(&mut nodes, i, j);
            }
        }
    }
    nodes
}

#[test]
fn test_discovery() {
    let num_nodes = 8;
    let mut secret_keys = generate_secret_keys(num_nodes).unwrap();
    let bootstrap_sk = secret_keys.pop().unwrap();
    let bootstrap_node = build_libp2p_instance(9000, vec![], bootstrap_sk);
    let base_port = 9001;
    let mut nodes: Vec<Service> = secret_keys
        .into_iter()
        .enumerate()
        .map(|(i, sk)| {
            build_libp2p_instance(base_port + i as u16, vec![get_enr(&bootstrap_node)], sk)
        })
        .collect();
    nodes.push(bootstrap_node);
    // the driver completes every dial towards the bootstrap node
    let boot_id = nodes[num_nodes].local_id().clone();
    for i in 0..num_nodes {
        // every generated identity lies in the bootstrap node's outer buckets
        assert!(get_distance(&boot_id, nodes[i].local_id()) > 253);
    }
    for i in 0..num_nodes {
        let id_i = nodes[i].local_id().clone();
        nodes[i].on_connected(&boot_id);
        nodes[num_nodes].on_connected(&id_i);
    }
    run_until_quiet(&mut nodes);
    // one lookup round through the bootstrap node spreads the population
    for i in 0..num_nodes {
        let target = nodes[i].local_id().clone();
        nodes[i].start_lookup(&target);
    }
    run_until_quiet(&mut nodes);
    for node in nodes.iter_mut() {
        let mut dialed = false;
        for ev in node.poll() {
            if let Event::PeerDialed(_) = ev {
                dialed = true;
                println!(
                    "Node {} is connected to {} peers.",
                    hex::encode(node.local_id()),
                    node.connected_peer_count()
                );
            }
        }
        assert!(dialed);
        // every node now knows the whole population but itself
        assert_eq!(node.known_peer_count(), num_nodes);
        assert!(node.connected_peer_count() >= 1);
    }
}

// Test publishing of a message with a full mesh for the topic
#[test]
fn test_gossipsub_full_mesh_publish() {
    let num_nodes = 13; // mesh high watermark + 1
    let mut nodes = build_nodes(num_nodes, None);
    run_until_quiet(&mut nodes);
    let pubsub_message = PubsubMessage::Block(vec![0; 4]);
    let topic = beacon_block_topic();
    let mut subscribed_count = 0;
    for ev in nodes[num_nodes - 1].poll() {
        if let Event::PeerSubscribed(_, t) = ev {
            // Received topics is one of subscribed eth2 topics
            assert!(t.starts_with(b"/eth2/"));
            if t == topic {
                subscribed_count += 1;
            }
        }
    }
    assert_eq!(subscribed_count, num_nodes - 1);
    nodes[num_nodes - 1]
        .publish(&topic, pubsub_message.clone())
        .unwrap();
    run_until_quiet(&mut nodes);
    let mut received_count = 0;
    for i in 0..num_nodes - 1 {
        let mut node_received = 0;
        for ev in nodes[i].poll() {
            if let Event::PubsubMessage {
                topic: t, message, ..
            } = ev
            {
                // Assert topics are eth2 topics
                assert!(vec![t.clone()]
                    .iter()
                    .all(|tt| tt == &beacon_block_topic()));
                // Assert message received is the correct one
                assert_eq!(message, pubsub_message.clone());
                node_received += 1;
            }
        }
        // each non-publishing node receives the message exactly once
        assert_eq!(node_received, 1);
        received_count += node_received;
    }
    assert_eq!(received_count, num_nodes - 1);
}

// Test if gossipsub messages are forwarded by nodes.
// Two fully connected meshes, bridged by one connecting pair of border
// nodes; a publish inside one mesh must reach every member of both.
#[test]
fn test_gossipsub_forward() {
    let mesh1_n = 6;
    let mesh2_n = 6;
    let mut mesh1 = build_nodes(mesh1_n, Some(9000));
    let mut mesh2 = build_nodes(mesh2_n, Some(9006));
    let mut nodes = Vec::new();
    nodes.append(&mut mesh1);
    nodes.append(&mut mesh2);
    let border1 = mesh1_n - 1;
    let border2 = mesh1_n + mesh2_n - 1;
    // Connect one node from each mesh
    connect(&mut nodes, border2, border1);
    run_until_quiet(&mut nodes);
    let pubsub_message = PubsubMessage::Block(vec![0; 4]);
    let publishing_topic = beacon_block_topic();
    let mut subscribed_count = 0;
    for border in [border1, border2] {
        for ev in nodes[border].poll() {
            if let Event::PeerSubscribed(_, t) = ev {
                // Received topics is one of subscribed eth2 topics
                assert!(t.starts_with(b"/eth2/"));
                if t == publishing_topic {
                    subscribed_count += 1;
                }
            }
        }
    }
    assert!(subscribed_count >= mesh1_n + mesh2_n - 1);
    nodes[border1]
        .publish(&publishing_topic, pubsub_message.clone())
        .unwrap();
    run_until_quiet(&mut nodes);
    let mut received_count = 0;
    for i in 0..nodes.len() {
        let mut node_received = 0;
        for ev in nodes[i].poll() {
            if let Event::PubsubMessage {
                topic: t, message, ..
            } = ev
            {
                assert!(vec![t.clone()]
                    .iter()
                    .all(|tt| tt == &publishing_topic));
                assert_eq!(message, pubsub_message.clone());
                node_received += 1;
                println!("Received count: {}", received_count + node_received);
            }
        }
        if i == border1 {
            // the publisher never delivers to itself
            assert_eq!(node_received, 0);
        } else {
            // everyone else, border nodes included, exactly once
            assert_eq!(node_received, 1);
        }
        received_count += node_received;
    }
    // total nodes minus the publisher
    assert_eq!(received_count, mesh1_n + mesh2_n - 1);
}

#[test]
fn test_rpc() {
    let mut nodes = build_nodes(2, None);
    run_until_quiet(&mut nodes);
    // Random rpc message
    let rpc_request = RpcRequest::Hello(HelloMessage {
        fork_version: [0; 4],
        finalized_root: vec![0; 32],
        finalized_epoch: 1,
        head_root: vec![0; 32],
        head_slot: 1,
    });
    let mut dialed = false;
    for ev in nodes[0].poll() {
        if let Event::PeerDialed(_) = ev {
            dialed = true;
        }
    }
    assert!(dialed);
    let peer = nodes[1].local_id().clone();
    let rid = nodes[0].send_request(&peer, rpc_request.clone()).unwrap();
    assert_eq!(rid, 1);
    run_until_quiet(&mut nodes);
    let mut got = false;
    for ev in nodes[1].poll() {
        if let Event::Rpc(_, event) = ev {
            match event {
                // Should receive sent rpc message
                RpcEvent::Request(id, request) => {
                    assert_eq!(id, 1);
                    assert_eq!(rpc_request.clone(), request);
                    got = true;
                }
                _ => panic!("Received incorrect rpc message"),
            }
        }
    }
    assert!(got);
}
