use lnconv_core::message::NodeId;
use lnconv_core::topology::synthetic::{build_peer_graph, random_regular};
use lnconv_core::topology::{NodeAlgo, Topology};
use petgraph::graph::NodeIndex;
use std::collections::HashSet;

fn topo_with_channels(n: usize, channels: &[(NodeId, NodeId)]) -> Topology {
    let mut t = Topology::empty(n, NodeAlgo::Flooding);
    for (i, (a, b)) in channels.iter().enumerate() {
        t.add_channel(i as u64, *a, *b);
    }
    t
}

fn const_k(k: usize) -> impl Fn(&NodeAlgo) -> usize {
    move |_| k
}

fn const_max_peer(c: usize) -> impl Fn(&NodeAlgo) -> usize {
    move |_| c
}

fn linked(t: &Topology, a: NodeId, b: NodeId) -> bool {
    t.peers.contains_edge(NodeIndex::new(t.nidx(a)), NodeIndex::new(t.nidx(b)))
}

/// Without the cap a hub's own pass picks 100 counterparties, but leaves
/// pick the hub too.
#[test]
fn hub_peer_count_or_semantics() {
    let chans: Vec<(NodeId, NodeId)> = (1..=200u64).map(|i| (0u64, i)).collect();
    let mut t = topo_with_channels(220, &chans);
    build_peer_graph(&mut t, const_k(5), const_max_peer(100), 42, false);
    let peer_count = t.peer_ids(0).len();
    assert!(peer_count >= 100, "got {peer_count}, expected >= 100");
    assert!(peer_count <= 220, "got {peer_count}, expected <= 220");
}

/// With the cap a hub ends with exactly its 100 picks as peers.
#[test]
fn hub_peer_count_capped_at_100() {
    let chans: Vec<(NodeId, NodeId)> = (1..=200u64).map(|i| (0u64, i)).collect();
    let mut t = topo_with_channels(220, &chans);
    build_peer_graph(&mut t, const_k(5), const_max_peer(100), 42, true);
    let peer_count = t.peer_ids(0).len();
    assert_eq!(
        peer_count, 100,
        "hub with c=200, enforce_hub_cap=true should keep exactly 100 peers; got {peer_count}"
    );
    for id in t.peer_ids(0) {
        assert!(
            (1..=200).contains(&id),
            "peer {id} is not a channel counterparty of node 0"
        );
    }
}

/// With the cap every dropped peer edge is matched by a replacement.
#[test]
fn hub_cap_top_up_replaces_dropped_edges() {
    let chans: Vec<(NodeId, NodeId)> = (1..=200u64).map(|i| (0u64, i)).collect();
    let mut t = topo_with_channels(2000, &chans);
    let stats = build_peer_graph(&mut t, const_k(4), const_max_peer(100), 7, true);
    assert!(
        stats.hub_rejected_edges >= 100,
        "expected >= 100 hub rejections; got {}",
        stats.hub_rejected_edges
    );
    assert_eq!(
        stats.replacements_added, stats.hub_rejected_edges,
        "expected one replacement per rejection; got {} replacements for {} rejections",
        stats.replacements_added, stats.hub_rejected_edges
    );
    let kept_set: HashSet<NodeId> = t.peer_ids(0).into_iter().collect();
    let rejected_leaf = (1..=200u64)
        .find(|i| !kept_set.contains(i))
        .expect("at least one leaf must be rejected");
    assert!(!linked(&t, rejected_leaf, 0));
}

/// Without the cap nothing is rejected and nothing replaced.
#[test]
fn no_rejections_or_replacements_when_cap_off() {
    let chans: Vec<(NodeId, NodeId)> = (1..=200u64).map(|i| (0u64, i)).collect();
    let mut t = topo_with_channels(2000, &chans);
    let stats = build_peer_graph(&mut t, const_k(4), const_max_peer(100), 7, false);
    assert_eq!(stats.hub_rejected_edges, 0);
    assert_eq!(stats.replacements_added, 0);
}

/// The counterparties that a capped hub did not pick lose their peer edge
/// and keep their channel.
#[test]
fn hub_cap_drops_unselected_counterparties_peer_edges() {
    let chans: Vec<(NodeId, NodeId)> = (1..=200u64).map(|i| (0u64, i)).collect();
    let mut t = topo_with_channels(220, &chans);
    build_peer_graph(&mut t, const_k(5), const_max_peer(100), 42, true);
    let nx0 = NodeIndex::new(t.nidx(0));
    let kept_set: HashSet<NodeId> = t.peer_ids(0).into_iter().collect();
    let mut dropped = 0usize;
    for i in 1..=200u64 {
        let nxi = NodeIndex::new(t.nidx(i));
        if !kept_set.contains(&i) {
            dropped += 1;
            assert!(
                t.channels.find_edge(nxi, nx0).is_some()
                    || t.channels.find_edge(nx0, nxi).is_some()
            );
            assert!(!t.peers.contains_edge(nxi, nx0));
        }
    }
    assert_eq!(dropped, 100, "expected 100 counterparties dropped from peers");
}

/// A sparse leaf's peer count stays close to `k`.
#[test]
fn sparse_node_close_to_k_total() {
    let chans = vec![(0u64, 1u64)];
    let mut t = topo_with_channels(20, &chans);
    let k = 4;
    build_peer_graph(&mut t, const_k(k), const_max_peer(100), 1, false);
    let peers: HashSet<NodeId> = t.peer_ids(0).into_iter().collect();
    assert!(peers.contains(&1), "must keep its only counterparty");
    assert!(!peers.contains(&0));
    let upper = k + 2;
    assert!(
        peers.len() <= upper,
        "expected total peer count close to k={k} (<= {upper}); got {}",
        peers.len()
    );
}

/// A leaf with one channel partner and `k = 2` still picks a stranger.
#[test]
fn sparse_min_degree_with_small_k() {
    let chans = vec![(0u64, 1u64)];
    let mut t = topo_with_channels(50, &chans);
    let k = 2;
    build_peer_graph(&mut t, const_k(k), const_max_peer(100), 7, false);
    let peers: HashSet<NodeId> = t.peer_ids(0).into_iter().collect();
    assert!(peers.contains(&1), "must keep its only counterparty");
    assert!(
        peers.len() >= 2,
        "k=2, c=1 leaf should pick at least one stranger (got {} peers total)",
        peers.len()
    );
}

fn edge_set(t: &Topology) -> HashSet<(usize, usize)> {
    t.peers
        .edge_indices()
        .map(|e| {
            let (a, b) = t.peers.edge_endpoints(e).unwrap();
            let (a, b) = (a.index(), b.index());
            if a < b { (a, b) } else { (b, a) }
        })
        .collect()
}

#[test]
fn deterministic_for_same_seed() {
    let chans: Vec<(NodeId, NodeId)> = (1..=10u64).map(|i| (0u64, i)).collect();
    let mut t1 = topo_with_channels(50, &chans);
    let mut t2 = topo_with_channels(50, &chans);
    build_peer_graph(&mut t1, const_k(4), const_max_peer(100), 99, false);
    build_peer_graph(&mut t2, const_k(4), const_max_peer(100), 99, false);
    assert_eq!(edge_set(&t1), edge_set(&t2));
}

/// Equal seeds give equal picks also where a hub draws them.
#[test]
fn capped_hubs_pick_alike_for_equal_seeds() {
    let chans: Vec<(NodeId, NodeId)> = (1..=200u64).map(|i| (0u64, i)).collect();
    let build = |seed: u64| {
        let mut t = topo_with_channels(220, &chans);
        build_peer_graph(&mut t, const_k(5), const_max_peer(100), seed, true);
        edge_set(&t)
    };
    assert_eq!(build(3), build(3));
    assert_ne!(build(3), build(4));
}

/// No two nodes are joined twice.
#[test]
fn peer_edges_are_simple() {
    let chans: Vec<(NodeId, NodeId)> = (1..=60u64).map(|i| (i % 7, i)).filter(|(a, b)| a != b).collect();
    let mut t = topo_with_channels(80, &chans);
    build_peer_graph(&mut t, const_k(6), const_max_peer(5), 11, true);
    assert_eq!(edge_set(&t).len(), t.peers.edge_count());
    assert!(edge_set(&t).iter().all(|(a, b)| a != b));
}

#[test]
fn tiny_topologies_get_no_peers() {
    let mut t = topo_with_channels(1, &[]);
    let stats = build_peer_graph(&mut t, const_k(5), const_max_peer(100), 1, true);
    assert_eq!(stats.hub_rejected_edges, 0);
    assert_eq!(t.peers.edge_count(), 0);
}

#[test]
fn regular_graphs_are_regular() {
    let t = random_regular(30, 4, 9, NodeAlgo::Cln { stagger_ms: 5 });
    assert_eq!(t.len(), 30);
    assert_eq!(t.peers.edge_count(), 60);
    for id in t.node_ids() {
        let peers: HashSet<NodeId> = t.peer_ids(id).into_iter().collect();
        assert_eq!(peers.len(), 4);
        assert!(!peers.contains(&id));
    }
    let again = random_regular(30, 4, 9, NodeAlgo::Flooding);
    assert_eq!(edge_set(&t), edge_set(&again));
    let other = random_regular(30, 4, 10, NodeAlgo::Flooding);
    assert_ne!(edge_set(&t), edge_set(&other));
}

/// Half of what is missing is rounded up, so that two nodes without
/// channels and a target of one find each other.
#[test]
fn nodes_without_channels_pick_a_stranger() {
    let mut t = topo_with_channels(2, &[]);
    build_peer_graph(&mut t, const_k(1), const_max_peer(100), 1, false);
    assert_eq!(t.peers.edge_count(), 1);
    assert!(linked(&t, 0, 1));
}

/// A node with `c` counterparties asks for half of the `k - c` peers that
/// are missing, here three of five.
#[test]
fn half_of_the_missing_peers_are_asked_for() {
    let mut t = Topology::empty(400, NodeAlgo::Flooding);
    t.add_channel(0, 0, 1);
    // Only the first node has a target, so all further edges are its own.
    t.node_meta_mut(0).algo = NodeAlgo::Cln { stagger_ms: 1 };
    let target = |a: &NodeAlgo| if matches!(a, NodeAlgo::Cln { .. }) { 6usize } else { 0 };
    build_peer_graph(&mut t, target, const_max_peer(100), 5, false);
    assert_eq!(t.peer_ids(0).len(), 1 + 3);
    assert_eq!(t.peers.edge_count(), 4);
}

/// A target beyond the number of nodes joins every node to every other.
#[test]
fn targets_may_exceed_the_number_of_nodes() {
    let mut t = topo_with_channels(4, &[]);
    build_peer_graph(&mut t, const_k(usize::MAX), const_max_peer(100), 3, false);
    assert_eq!(t.peers.edge_count(), 6);
}
