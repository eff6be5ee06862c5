use lnconv_core::config::NodeAlgoKind;
use lnconv_core::topology::metrics::compute;
use lnconv_core::topology::{NodeAlgo, Topology};

#[test]
fn nodes_are_found_by_id() {
    let mut t = Topology::with_capacity(3);
    assert!(t.is_empty());
    assert_eq!(t.add_node(700, NodeAlgo::Flooding), 0);
    assert_eq!(t.add_node(5, NodeAlgo::Cln { stagger_ms: 9 }), 1);
    assert_eq!(t.len(), 2);
    assert_eq!(t.nidx(5), 1);
    assert_eq!(t.nidx_opt(700), Some(0));
    assert_eq!(t.nidx_opt(701), None);
    assert_eq!(t.node_meta(5).idx, 1);
    assert_eq!(t.node_ids(), vec![700, 5]);
    t.node_meta_mut(700).algo = NodeAlgo::Cln { stagger_ms: 1 };
    assert_eq!(t.node_meta(700).algo, NodeAlgo::Cln { stagger_ms: 1 });
}

#[test]
fn edges_and_channels_are_kept_apart() {
    let mut t = Topology::empty(4, NodeAlgo::Flooding);
    t.add_peer_edge(0, 1);
    t.add_peer_edge(2, 0);
    t.add_channel(77, 3, 0);
    t.add_channel(78, 0, 1);
    assert_eq!(t.peer_ids(0), vec![1, 2]);
    assert!(t.peer_ids(3).is_empty());
    assert_eq!(t.channels_for(0), vec![(78, 0), (77, 1)]);
    assert_eq!(t.channels_for(3), vec![(77, 0)]);
}

#[test]
fn algorithms_of_a_mix_convert() {
    assert_eq!(
        NodeAlgo::from(&NodeAlgoKind::Lnd {
            stagger_ms: 90_000,
            trickle_ms: 5_000,
            min_batch_size: 10
        }),
        NodeAlgo::Lnd { stagger_ms: 90_000, trickle_ms: 5_000, min_batch_size: 10 }
    );
    assert_eq!(
        NodeAlgo::from(&NodeAlgoKind::Sketch {
            stagger_ms: 60_000,
            capacity_chan_updates: 1,
            capacity_node_anns: 2,
            capacity_chan_anns: 3,
            peer_offset_max_ms: Some(4),
        }),
        NodeAlgo::Sketch {
            stagger_ms: 60_000,
            capacity_chan_updates: 1,
            capacity_node_anns: 2,
            capacity_chan_anns: 3,
        }
    );
}

/// A path of four nodes and a separate pair.
fn path_and_pair() -> Topology {
    let mut t = Topology::empty(6, NodeAlgo::Flooding);
    t.add_peer_edge(0, 1);
    t.add_peer_edge(1, 2);
    t.add_peer_edge(2, 3);
    t.add_peer_edge(4, 5);
    t.add_channel(1, 0, 1);
    t.add_channel(2, 1, 0);
    t.add_channel(3, 2, 1);
    t
}

#[test]
fn figures_of_a_path() {
    let m = compute(&path_and_pair(), 1, 100, 10);
    let p = m.peers;
    assert_eq!((p.n, p.edges, p.min_degree, p.max_degree), (6, 4, 1, 2));
    assert_eq!(p.total_degree, 8);
    assert_eq!(p.diameter, 3);
    // Ordered pairs on the path: 2 * (3 * 1 + 2 * 2 + 1 * 3), and the pair.
    assert_eq!(p.total_distance, 22);
    assert_eq!(p.paths, 20);
    assert_eq!((p.bfs_sources, p.exact, p.connected), (6, true, false));
    assert_eq!(p.largest_component_seen, 4);
}

/// Two channels between the same nodes count once.
#[test]
fn channel_figures_ignore_direction() {
    let m = compute(&path_and_pair(), 1, 100, 10);
    let c = m.channels;
    assert_eq!((c.n, c.edges, c.min_degree, c.max_degree), (6, 2, 0, 2));
    assert_eq!(c.diameter, 2);
    assert_eq!(c.largest_component_seen, 3);
}

#[test]
fn large_graphs_are_sampled() {
    let mut t = Topology::empty(40, NodeAlgo::Flooding);
    for i in 0..40u64 {
        t.add_peer_edge(i, (i + 1) % 40);
    }
    let m = compute(&t, 7, 10, 5);
    assert!(!m.peers.exact);
    assert_eq!(m.peers.bfs_sources, 5);
    assert_eq!(m.peers.diameter, 20);
    assert!(m.peers.connected);
    assert_eq!(m.peers.paths, 200);
    let all = compute(&t, 7, 10, 500);
    assert_eq!(all.peers.bfs_sources, 40);
}
