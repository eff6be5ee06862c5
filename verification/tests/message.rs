use lnconv_core::message::{
    Gossip, GossipBatch, GossipKind, InventoryMsg, Sketch, SketchKind, WireMessage,
};
use std::collections::HashSet;
use std::sync::Arc;

fn gossip(kind: GossipKind) -> Gossip {
    Gossip {
        id: 0,
        origin: None,
        kind,
        size_bytes: 100,
        scid: Some(1),
        direction: 0,
        timestamp: 0,
    }
}

#[test]
fn gossip_kind_discriminants_stable() {
    assert_eq!(GossipKind::NodeAnnouncement.as_u8(), 1);
    assert_eq!(GossipKind::ChannelAnnouncement.as_u8(), 2);
    assert_eq!(GossipKind::ChannelUpdate.as_u8(), 3);
}

/// Two derived ids over the same identity tuple must match.
#[test]
fn derive_id_is_deterministic() {
    let a = Gossip::derive_id(None, GossipKind::ChannelUpdate, Some(100), 0, 42);
    let b = Gossip::derive_id(None, GossipKind::ChannelUpdate, Some(100), 0, 42);
    assert_eq!(a, b);
}

/// Callers pass no origin for channel messages, so none takes part in
/// their identity.
#[test]
fn derive_id_origin_ignored_for_chan_kinds_at_hash_level() {
    let a = Gossip::derive_id(None, GossipKind::ChannelUpdate, Some(7), 0, 100);
    let b = Gossip::derive_id(None, GossipKind::ChannelUpdate, Some(7), 0, 100);
    assert_eq!(a, b);
}

/// Different timestamps for the same channel side give different ids.
#[test]
fn derive_id_distinguishes_timestamp() {
    let a = Gossip::derive_id(None, GossipKind::ChannelUpdate, Some(7), 0, 100);
    let b = Gossip::derive_id(None, GossipKind::ChannelUpdate, Some(7), 0, 101);
    assert_ne!(a, b);
}

/// 100k distinct identity tuples produce 100k distinct ids.
#[test]
fn msg_id_collision_safe_at_100k() {
    let mut ids = HashSet::new();
    for ts in 0..100_000u32 {
        let id = Gossip::derive_id(None, GossipKind::ChannelUpdate, Some(42), 0, ts);
        assert!(ids.insert(id), "collision at ts={ts}");
    }
    assert_eq!(ids.len(), 100_000);
}

#[test]
fn gossip_batch_from_mixed_partitions() {
    let mixed = vec![
        gossip(GossipKind::ChannelUpdate),
        gossip(GossipKind::NodeAnnouncement),
        gossip(GossipKind::ChannelAnnouncement),
        gossip(GossipKind::ChannelUpdate),
    ];
    let b = GossipBatch::from_mixed(mixed);
    assert_eq!(b.chan_updates.len(), 2);
    assert_eq!(b.node_anns.len(), 1);
    assert_eq!(b.chan_anns.len(), 1);
    assert_eq!(b.len(), 4);
    assert_eq!(b.wire_size(), 400);
}

/// The id is the XXH3 hash of the identity bytes, so it equals neither of
/// its inputs.
#[test]
fn derived_id_is_hashed() {
    let id = Gossip::derive_id(None, GossipKind::ChannelUpdate, Some(100), 0, 42);
    let mut bytes: Vec<u8> = 0u64.to_le_bytes().to_vec();
    bytes.push(3);
    bytes.extend(100u64.to_le_bytes());
    bytes.push(0);
    bytes.extend(42u32.to_le_bytes());
    let want =
        twox_hash::xxhash3_64::Hasher::oneshot_with_seed(0x4D534749445F5355, &bytes);
    assert_eq!(id, want);
    assert_ne!(id, 100);
    assert_ne!(id, 42);
}

#[test]
fn sketch_kinds_match_gossip_kinds() {
    for (s, g, code, label) in [
        (SketchKind::ChanUpdates, GossipKind::ChannelUpdate, 0u8, "chan_updates"),
        (SketchKind::NodeAnns, GossipKind::NodeAnnouncement, 1, "node_anns"),
        (SketchKind::ChanAnns, GossipKind::ChannelAnnouncement, 2, "chan_anns"),
    ] {
        assert_eq!(SketchKind::from_gossip(g), s);
        assert_eq!(s.to_gossip(), g);
        assert_eq!(s.as_u8(), code);
        assert_eq!(s.as_label(), label);
    }
}

#[test]
fn batch_of_one_kind_and_of_one_message() {
    let b = GossipBatch::from_mixed_for_kind(
        vec![gossip(GossipKind::NodeAnnouncement), gossip(GossipKind::NodeAnnouncement)],
        GossipKind::NodeAnnouncement,
    );
    assert_eq!((b.chan_updates.len(), b.node_anns.len(), b.chan_anns.len()), (0, 2, 0));
    let one = GossipBatch::from_one(gossip(GossipKind::ChannelAnnouncement));
    assert_eq!(one.len(), 1);
    assert_eq!(one.chan_anns.len(), 1);
    assert!(!one.is_empty());
    assert!(GossipBatch::from_mixed(Vec::new()).is_empty());
}

#[test]
fn wire_sizes_and_contents() {
    let single = WireMessage::Single(gossip(GossipKind::ChannelUpdate));
    assert_eq!(single.wire_size(), 100);
    assert_eq!(single.iter_gossips().len(), 1);
    let batch = WireMessage::Batch(Arc::new(GossipBatch::from_mixed(vec![
        gossip(GossipKind::ChannelUpdate),
        gossip(GossipKind::ChannelAnnouncement),
    ])));
    assert_eq!(batch.wire_size(), 200);
    assert_eq!(batch.iter_gossips().len(), 2);
    let sketch = WireMessage::Sketch(Sketch {
        id: 1,
        from: 3,
        kind: SketchKind::ChanUpdates,
        capacity: 8,
        size_bytes: 64,
    });
    assert_eq!(sketch.wire_size(), 64);
    assert!(sketch.iter_gossips().is_empty());
    let inventory =
        WireMessage::Inventory(InventoryMsg::new(3, GossipKind::ChannelUpdate, vec![1, 2, 3]));
    assert_eq!(inventory.wire_size(), 24);
    assert!(inventory.iter_gossips().is_empty());
}
