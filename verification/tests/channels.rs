use lnconv_core::channels::ChannelRegistry;
use lnconv_core::topology::{NodeAlgo, Topology};
use rand::SeedableRng;
use rand_chacha::ChaCha8Rng;
use std::collections::HashSet;

fn topo(n: usize) -> Topology {
    Topology::empty(n, NodeAlgo::Flooding)
}

#[test]
fn build_is_deterministic() {
    let mut t1 = topo(50);
    let mut t2 = topo(50);
    let a = ChannelRegistry::build(&mut t1, 100, 42);
    let b = ChannelRegistry::build(&mut t2, 100, 42);
    for scid in 0..100u64 {
        assert_eq!(a.owner(scid, 0), b.owner(scid, 0));
        assert_eq!(a.owner(scid, 1), b.owner(scid, 1));
    }
}

#[test]
fn owner_matches_channels_for() {
    let mut t = topo(30);
    let r = ChannelRegistry::build(&mut t, 200, 7);
    for scid in 0..200u64 {
        for dir in [0u8, 1u8] {
            let owner = r.owner(scid, dir);
            assert!(r.channels_for(owner).contains(&(scid, dir)));
        }
    }
}

#[test]
fn directions_are_distinct_nodes() {
    let mut t = topo(10);
    let r = ChannelRegistry::build(&mut t, 50, 1);
    for scid in 0..50u64 {
        assert_ne!(r.owner(scid, 0), r.owner(scid, 1));
    }
}

/// Every side that the registry gives to a node is also one of the node's
/// sides in the channel graph.
#[test]
fn topology_channels_match_registry() {
    let mut t = topo(20);
    let r = ChannelRegistry::build(&mut t, 80, 99);
    for node in 0..20u64 {
        let from_registry: HashSet<_> = r.channels_for(node).iter().copied().collect();
        let from_graph: HashSet<_> = t.channels_for(node).into_iter().collect();
        assert_eq!(from_registry, from_graph, "mismatch for node {node}");
    }
}

#[test]
fn listed_channels_are_known() {
    let mut t = topo(4);
    let r = ChannelRegistry::from_iter(&mut t, vec![(70, 0, 1), (90, 3, 1)]);
    assert_eq!(r.len(), 2);
    assert!(!r.is_empty());
    assert_eq!(r.scids(), &[70, 90]);
    assert!(r.knows_scid(90));
    assert!(!r.knows_scid(71));
    assert_eq!(r.owner(90, 0), 3);
    assert_eq!(r.owner(90, 1), 1);
    assert_eq!(r.channels_for(1), vec![(70, 1), (90, 1)]);
    assert!(r.channels_for(2).is_empty());
    assert_eq!(r.ownership(&t), (4, 4));
}

#[test]
fn different_seeds_give_different_channels() {
    let mut t1 = topo(50);
    let mut t2 = topo(50);
    let a = ChannelRegistry::build(&mut t1, 100, 1);
    let b = ChannelRegistry::build(&mut t2, 100, 2);
    assert!((0..100u64).any(|s| a.owner(s, 0) != b.owner(s, 0)));
    // The coin decides which end owns direction 0.
    let flipped = (0..100u64).filter(|s| a.owner(*s, 0) > a.owner(*s, 1)).count();
    assert!(flipped > 20 && flipped < 80);
}

#[test]
fn random_channels_are_owned() {
    let mut t = topo(10);
    let r = ChannelRegistry::build(&mut t, 30, 5);
    let mut rng = ChaCha8Rng::seed_from_u64(3);
    let mut seen = HashSet::new();
    for _ in 0..200 {
        let (scid, dir, owner) = r.random_channel(&mut rng);
        assert_eq!(r.owner(scid, dir), owner);
        seen.insert((scid, dir));
    }
    assert!(seen.len() > 30);
}

/// The mean counts every node of the topology, also those without a
/// channel.
#[test]
fn means_are_over_all_nodes() {
    let mut t = topo(4);
    let r = ChannelRegistry::from_iter(&mut t, vec![(0, 0, 1)]);
    let (sides, nodes) = r.ownership(&t);
    assert_eq!((sides, nodes), (2, 4));
    assert_eq!(sides as f64 / nodes as f64, 0.5);
}

#[test]
fn sampled_channels_are_numbered_and_owned_by_nodes() {
    let mut t = topo(5);
    let r = ChannelRegistry::build(&mut t, 40, 9);
    assert_eq!(r.scids(), (0..40u64).collect::<Vec<u64>>().as_slice());
    for scid in 0..40u64 {
        assert!(r.owner(scid, 0) < 5 && r.owner(scid, 1) < 5);
        assert_ne!(r.owner(scid, 0), r.owner(scid, 1));
    }
}
