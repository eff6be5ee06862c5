use lnconv_core::topology::ln_data::{
    hash_pubkey, hash_scid_string, load, LoadError, SnapshotBuilder, SnapshotChannel,
};
use std::collections::HashSet;

fn keys(ks: &[&str]) -> Vec<String> {
    ks.iter().map(|k| k.to_string()).collect()
}

fn channel(scid: &str, a: &str, b: &str) -> SnapshotChannel {
    SnapshotChannel {
        scid: scid.to_string(),
        node_1: a.to_string(),
        node_2: b.to_string(),
    }
}

#[test]
fn ids_are_hashes_of_the_text() {
    let pk = "02aabb";
    let want =
        twox_hash::xxhash3_64::Hasher::oneshot_with_seed(9 ^ 0x4E4F44455F535542, pk.as_bytes());
    assert_eq!(hash_pubkey(9, pk), want);
    assert_ne!(hash_pubkey(9, pk), hash_pubkey(10, pk));
    let scid = "1012232394786537478";
    let want =
        twox_hash::xxhash3_64::Hasher::oneshot_with_seed(9 ^ 0x534349445F535542, scid.as_bytes());
    assert_eq!(hash_scid_string(9, scid), want & 0x7FFF_FFFF_FFFF_FFFF);
}

#[test]
fn snapshots_are_loaded_in_order() {
    let snap = load(
        keys(&["a", "b", "c", "b"]),
        vec![channel("1", "a", "b"), channel("2", "c", "c"), channel("3", "c", "a")],
        "channel_list.csv",
        1,
    )
    .expect("load failed");
    assert_eq!(snap.nodes, vec![hash_pubkey(1, "a"), hash_pubkey(1, "b"), hash_pubkey(1, "c")]);
    assert_eq!(
        snap.channels,
        vec![
            (hash_scid_string(1, "1"), hash_pubkey(1, "a"), hash_pubkey(1, "b")),
            (hash_scid_string(1, "3"), hash_pubkey(1, "c"), hash_pubkey(1, "a")),
        ]
    );
    for id in &snap.nodes {
        assert!(snap.pubkey_of.contains_key(id));
    }
    assert_eq!(snap.pubkey_of[&hash_pubkey(1, "b")], "b");
}

#[test]
fn unknown_pubkeys_are_refused() {
    let r = load(
        keys(&["a", "b"]),
        vec![channel("1", "a", "b"), channel("2", "a", "x")],
        "channel_list.csv",
        1,
    );
    match r {
        Err(LoadError::UnknownPubkey { path, row, pubkey }) => {
            assert_eq!((path.as_str(), row, pubkey.as_str()), ("channel_list.csv", 3, "x"));
        }
        other => panic!("unexpected {other:?}"),
    }
}

#[test]
fn loaded_channels_reference_known_nodes() {
    let names: Vec<String> = (0..200).map(|i| format!("02{i:064x}")).collect();
    let rows: Vec<SnapshotChannel> = (0..400usize)
        .map(|i| channel(&i.to_string(), &names[i % 200], &names[(i * 7 + 3) % 200]))
        .collect();
    let snap = load(names.clone(), rows, "channel_list.csv", 1).expect("load failed");
    assert_eq!(snap.nodes.len(), 200);
    let node_set: HashSet<u64> = snap.nodes.iter().copied().collect();
    for (_scid, n1, n2) in &snap.channels {
        assert!(node_set.contains(n1));
        assert!(node_set.contains(n2));
        assert_ne!(n1, n2);
    }
}

#[test]
fn rows_are_taken_one_by_one() {
    let mut b = SnapshotBuilder::new(4);
    assert!(b.add_node("a".to_string()).is_ok());
    assert!(b.add_node("a".to_string()).is_ok());
    assert!(b.add_channel(channel("5", "z", "a"), "c.csv").is_err());
    assert!(b.add_node("z".to_string()).is_ok());
    assert!(b.add_channel(channel("5", "z", "a"), "c.csv").is_ok());
    let snap = b.finish();
    assert_eq!(snap.nodes.len(), 2);
    assert_eq!(snap.channels.len(), 1);
}
