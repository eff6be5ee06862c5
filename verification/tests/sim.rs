use lnconv_core::channels::ChannelRegistry;
use lnconv_core::config::{
    default_ca_capacity, default_cu_capacity, default_mailbox_capacity, default_msg_size,
    default_na_capacity, default_progress_interval, AlgoCfg, ChannelsCfg, EventCfg, KByAlgo,
    LatencyCfg, MixEntry, NodeAlgoKind, RunCfg, SimConfig, TopologyCfg,
};
use lnconv_core::events::{count_kinds, in_schedule_order};
use lnconv_core::keys::ScheduledEvent;
use lnconv_core::latency::{Constant, LatencyDist};
use lnconv_core::message::{Gossip, GossipKind};
use lnconv_core::report::{per_node_mean, sketch_kind_from_u8, summarise_sketches, SketchTotals};
use lnconv_core::sim::{
    apportion, assign_mix, build_events, build_network, default_algo_from, latency_ms, mix_counts,
    offset_window, plan_slots, poisson_source, sketch_settings, stagger_of, wiring, worker_threads,
    Action, Driver, MixShares, SetupError, SketchSettings, Slot,
};
use lnconv_core::time::SimDuration;
use lnconv_core::topology::ln_data::LnSnapshot;
use lnconv_core::topology::{NodeAlgo, Topology};
use std::collections::{HashMap, HashSet};

const CLN: NodeAlgoKind = NodeAlgoKind::Cln { stagger_ms: 60_000 };
const LND: NodeAlgoKind =
    NodeAlgoKind::Lnd { stagger_ms: 90_000, trickle_ms: 5_000, min_batch_size: 10 };

fn run_cfg() -> RunCfg {
    RunCfg {
        duration_seconds: 60,
        mailbox_capacity: 16,
        progress_interval_seconds: 10,
        threads: None,
    }
}

fn regular_cfg(channels: Option<u32>, algo: AlgoCfg) -> SimConfig {
    SimConfig {
        seed: 3,
        topology: TopologyCfg::KRegular { n: 20, k: 4 },
        channels: channels.map(|count| ChannelsCfg { count }),
        latency: LatencyCfg::Constant { ms: 50 },
        algo,
        event: EventCfg::OneShotAll {},
        run: run_cfg(),
    }
}

#[test]
fn remainders_go_to_the_largest() {
    // Shares 0.5, 0.3 and 0.2 of 7: 3.5, 2.1 and 1.4.
    assert_eq!(apportion(7, &vec![3, 2, 1], &vec![0, 2, 1]), vec![4, 2, 1]);
    assert_eq!(apportion(8, &vec![3, 2, 1], &vec![0, 2, 1]), vec![4, 2, 2]);
    assert_eq!(apportion(6, &vec![3, 2, 1], &vec![0, 2, 1]), vec![3, 2, 1]);
}

#[test]
fn mixes_are_shuffled() {
    let population = vec![
        MixEntry { fraction_bits: 0.5f64.to_bits(), algo: CLN },
        MixEntry { fraction_bits: 0.5f64.to_bits(), algo: LND },
    ];
    let mixed = assign_mix(100, &population, &vec![50, 50], &vec![0, 1], 9);
    assert_eq!(mix_counts(&mixed), (50, 50, 0));
    let again = assign_mix(100, &population, &vec![50, 50], &vec![0, 1], 9);
    assert_eq!(mixed, again);
    let ordered: Vec<NodeAlgoKind> = (0..100).map(|i| if i < 50 { CLN } else { LND }).collect();
    assert_ne!(mixed, ordered);
    assert_ne!(mixed, assign_mix(100, &population, &vec![50, 50], &vec![0, 1], 10));
}

#[test]
fn synthetic_networks_are_built() {
    let cfg = regular_cfg(Some(30), AlgoCfg::Cln { stagger_ms: 1000 });
    let net = match build_network(&cfg, None, None) {
        Ok(net) => net,
        Err(e) => panic!("{e:?}"),
    };
    assert_eq!(net.topology.len(), 20);
    assert_eq!(net.registry.len(), 30);
    assert!(net.peer_stats.is_none());
    for id in net.topology.node_ids() {
        assert_eq!(net.topology.peer_ids(id).len(), 4);
        assert_eq!(net.topology.node_meta(id).algo, NodeAlgo::Cln { stagger_ms: 1000 });
    }
}

#[test]
fn synthetic_networks_need_channels() {
    let cfg = regular_cfg(None, AlgoCfg::Flooding {});
    assert!(matches!(build_network(&cfg, None, None), Err(SetupError::ChannelsMissing)));
}

fn snapshot() -> LnSnapshot {
    let nodes: Vec<u64> = (100..130).collect();
    let channels = (0..29u64).map(|i| (i, 100 + i, 101 + i)).collect();
    LnSnapshot { nodes, channels, pubkey_of: HashMap::new() }
}

#[test]
fn snapshot_networks_keep_their_channels() {
    let cfg = SimConfig {
        seed: 3,
        topology: TopologyCfg::FromCsv {
            nodes_csv: "n.csv".to_string(),
            channels_csv: "c.csv".to_string(),
            k: KByAlgo { flooding: 3, cln: 5, lnd: 4, sketch: None },
            enforce_hub_cap: true,
        },
        channels: None,
        latency: LatencyCfg::Constant { ms: 50 },
        algo: AlgoCfg::Mix {
            population: vec![
                MixEntry { fraction_bits: 0.5f64.to_bits(), algo: CLN },
                MixEntry { fraction_bits: 0.5f64.to_bits(), algo: LND },
            ],
        },
        event: EventCfg::OneShotAll {},
        run: run_cfg(),
    };
    let shares = MixShares { floors: vec![15, 15], by_residual: vec![0, 1] };
    let net = match build_network(&cfg, Some(snapshot()), Some(shares)) {
        Ok(net) => net,
        Err(e) => panic!("{e:?}"),
    };
    assert_eq!(net.registry.len(), 29);
    let stats = net.peer_stats.expect("built from channels");
    assert_eq!((stats.hub_rejected_edges, stats.replacements_added), (0, 0));
    for i in 0..29u64 {
        assert!(net.topology.peer_ids(100 + i).contains(&(101 + i)));
    }
    let cln = (100..130u64)
        .filter(|id| matches!(net.topology.node_meta(*id).algo, NodeAlgo::Cln { .. }))
        .count();
    assert_eq!(cln, 15);
}

#[test]
fn targets_follow_the_algorithm() {
    let k = KByAlgo { flooding: 1, cln: 2, lnd: 3, sketch: None };
    let sketch = NodeAlgo::Sketch {
        stagger_ms: 1,
        capacity_chan_updates: 1,
        capacity_node_anns: 1,
        capacity_chan_anns: 1,
    };
    assert_eq!(k.k_for(&NodeAlgo::Flooding), 1);
    assert_eq!(k.k_for(&NodeAlgo::Cln { stagger_ms: 0 }), 2);
    assert_eq!(k.k_for(&sketch), 2);
    assert_eq!(KByAlgo { sketch: Some(9), ..k }.k_for(&sketch), 9);
    assert_eq!(stagger_of(&sketch), SimDuration::from_millis(1));
    assert_eq!(stagger_of(&NodeAlgo::Flooding), SimDuration::zero());
}

#[test]
fn configurations_have_defaults() {
    assert_eq!(default_cu_capacity(), 512);
    assert_eq!(default_na_capacity(), 64);
    assert_eq!(default_ca_capacity(), 64);
    assert_eq!(default_msg_size(), 1024);
    assert_eq!(default_mailbox_capacity(), 1024);
    assert_eq!(default_progress_interval(), 10);
    assert_eq!(latency_ms(&LatencyCfg::Constant { ms: 7 }), 7);
    assert_eq!(worker_threads(&run_cfg()), None);
    assert_eq!(worker_threads(&RunCfg { threads: Some(0), ..run_cfg() }), None);
    assert_eq!(worker_threads(&RunCfg { threads: Some(4), ..run_cfg() }), Some(4));
    assert_eq!(default_algo_from(&AlgoCfg::Flooding {}), NodeAlgo::Flooding);
    assert_eq!(
        default_algo_from(&AlgoCfg::Mix { population: vec![] }),
        NodeAlgo::Cln { stagger_ms: 0 }
    );
    let mut d = Constant(SimDuration::from_millis(50));
    assert_eq!(d.sample(0, 1), SimDuration::from_millis(50));
}

fn path_of(n: usize) -> (Topology, ChannelRegistry) {
    let mut t = Topology::empty(n, NodeAlgo::Flooding);
    let rows = (0..n as u64 - 2).map(|i| (i + 50, i, i + 1)).collect();
    let r = ChannelRegistry::from_iter(&mut t, rows);
    (t, r)
}

#[test]
fn one_shot_schedules_use_the_first_side() {
    // Nodes 0 to 2 are on the path of channels 50 and 51; node 3 is not.
    let (t, r) = path_of(4);
    let ids = t.node_ids();
    let max = SimDuration::from_secs(60);
    let all = build_events(&EventCfg::OneShotAll {}, &ids, max, &r, vec![]);
    assert_eq!(all.len(), 3);
    let scids: Vec<_> = all.iter().map(|e| (e.1, e.2.scid, e.2.direction, e.2.id)).collect();
    assert_eq!(
        scids,
        vec![(0, Some(50), 0, 0), (1, Some(50), 1, 1), (2, Some(51), 1, 2)]
    );
    assert!(all.iter().all(|e| e.0 == SimDuration::zero() && e.2.size_bytes == 1024));
    let one = build_events(&EventCfg::OneShotSingle { node: 2 }, &ids, max, &r, vec![]);
    assert_eq!(one.len(), 1);
    assert_eq!(one[0].1, 2);
    assert!(build_events(&EventCfg::OneShotSingle { node: 3 }, &ids, max, &r, vec![]).is_empty());
    assert!(build_events(&EventCfg::OneShotSingle { node: 9 }, &ids, max, &r, vec![]).is_empty());
}

#[test]
fn random_streams_update_owned_sides() {
    let (_t, r) = path_of(12);
    let cfg = EventCfg::PoissonRandom { rate_bits: 2.0f64.to_bits(), size_bytes: 130 };
    let source = poisson_source(&cfg, 1).expect("a random stream");
    assert!(poisson_source(&EventCfg::OneShotAll {}, 1).is_none());
    assert_eq!(source.seed, 1 ^ 0xE7E);
    let mut rng = source.generator();
    let mut sides = HashSet::new();
    for i in 0..100u64 {
        let at = SimDuration::from_secs(i);
        let e = source.event_at(at, &r, &mut rng);
        let scid = e.2.scid.expect("an update has a channel");
        assert_eq!(e.0, at);
        assert_eq!(e.1, r.owner(scid, e.2.direction));
        assert_eq!(e.2.size_bytes, 130);
        sides.insert((scid, e.2.direction));
    }
    assert!(sides.len() > 5);
    let mut again = source.generator();
    let first = source.event_at(SimDuration::zero(), &r, &mut again);
    let mut other = source.generator();
    assert_eq!(first.2.scid, source.event_at(SimDuration::zero(), &r, &mut other).2.scid);
}

fn event(ms: u64, node: u64) -> ScheduledEvent {
    let msg = Gossip {
        id: node,
        origin: None,
        kind: GossipKind::ChannelUpdate,
        size_bytes: 1,
        scid: Some(1),
        direction: 0,
        timestamp: 0,
    };
    (SimDuration::from_millis(ms), node, msg)
}

#[test]
fn schedules_are_sorted_stably() {
    let out = in_schedule_order(vec![event(2500, 1), event(10, 2), event(2500, 3), event(0, 4), event(10, 5)]);
    let order: Vec<u64> = out.iter().map(|e| e.1).collect();
    assert_eq!(order, vec![4, 2, 5, 1, 3]);
}

#[test]
fn models_are_numbered_by_kind() {
    let mut t = Topology::with_capacity(4);
    t.add_node(10, NodeAlgo::Flooding);
    t.add_node(11, NodeAlgo::Cln { stagger_ms: 1 });
    t.add_node(12, NodeAlgo::Cln { stagger_ms: 2 });
    t.add_node(13, NodeAlgo::Flooding);
    assert_eq!(
        plan_slots(&t),
        vec![Slot::Flooding(0), Slot::Cln(0), Slot::Cln(1), Slot::Flooding(1)]
    );
    t.add_peer_edge(10, 11);
    t.add_peer_edge(12, 10);
    let wires: HashSet<(usize, usize)> = wiring(&t).into_iter().collect();
    let want: HashSet<(usize, usize)> = [(0, 1), (1, 0), (0, 2), (2, 0)].into_iter().collect();
    assert_eq!(wires, want);
}

/// Runs a driver as a simulation would and lists what it asked for.
fn drive(events: Vec<ScheduledEvent>, end_ms: u64, every: u64) -> Vec<String> {
    let mut d = Driver::new(events, SimDuration::from_millis(end_ms), every);
    let mut now = SimDuration::zero();
    let mut out = Vec::new();
    for _ in 0..100 {
        match d.decide(now) {
            Action::StepTo(t) => {
                now = t;
                out.push(format!("step {}", t.as_nanos() / 1_000_000));
            }
            Action::Inject(e) => out.push(format!("inject {}", e.1)),
            Action::Progress => out.push("progress".to_string()),
            Action::Finished => {
                out.push("finished".to_string());
                return out;
            }
        }
    }
    panic!("the driver did not finish");
}

#[test]
fn runs_stop_at_events_and_reports() {
    assert_eq!(
        drive(vec![event(0, 1), event(0, 2), event(1500, 3), event(9000, 4)], 2500, 1),
        vec![
            "inject 1", "inject 2", "step 1000", "progress", "step 1500", "inject 3",
            "step 2000", "progress", "step 2500", "finished",
        ]
    );
}

#[test]
fn events_at_the_end_are_injected() {
    assert_eq!(
        drive(vec![event(2000, 7)], 2000, 0),
        vec!["step 2000", "inject 7", "finished"]
    );
    assert_eq!(drive(vec![], 1000, 0), vec!["step 1000", "finished"]);
}

#[test]
fn reports_name_kinds() {
    for k in 0..3u8 {
        assert_eq!(sketch_kind_from_u8(k).as_u8(), k);
    }
    assert_eq!(sketch_kind_from_u8(200).as_u8(), 0);
    assert_eq!(per_node_mean(10, 4), 2);
    assert_eq!(per_node_mean(10, 0), 10);
}

#[test]
fn sketch_figures_are_summed() {
    let mut t = SketchTotals {
        sent: 100,
        received: 90,
        inv_sent: 0,
        inv_received: 0,
        overflowed_chan_updates: 1,
        overflowed_node_anns: 2,
        overflowed_chan_anns: 3,
        inv_keys_total: 0,
        n_nodes: 8,
    };
    let s = summarise_sketches(&t).expect("sketches were sent");
    assert_eq!((s.total_overflows, s.sent_mean, s.received_mean), (6, 12, 11));
    assert!(!s.has_inventories);
    assert_eq!(s.keys_per_inventory, None);
    t.inv_sent = 4;
    t.inv_keys_total = 50;
    assert_eq!(summarise_sketches(&t).and_then(|s| s.keys_per_inventory), Some(12));
    t.sent = 0;
    t.received = 0;
    assert!(summarise_sketches(&t).is_none());
}

#[test]
fn the_first_sketch_entry_sets_the_run() {
    let sketch = |stagger_ms| NodeAlgoKind::Sketch {
        stagger_ms,
        capacity_chan_updates: 8,
        capacity_node_anns: 4,
        capacity_chan_anns: 2,
        peer_offset_max_ms: Some(300),
    };
    let entry = |algo| MixEntry { fraction_bits: 0.25f64.to_bits(), algo };
    let mix = AlgoCfg::Mix {
        population: vec![entry(CLN), entry(sketch(7)), entry(LND), entry(sketch(9))],
    };
    let expected = SketchSettings {
        stagger_ms: 7,
        capacity_chan_updates: 8,
        capacity_node_anns: 4,
        capacity_chan_anns: 2,
        peer_offset_max_ms: Some(300),
    };
    assert_eq!(sketch_settings(&mix), Some(expected));
    assert_eq!(sketch_settings(&AlgoCfg::Mix { population: vec![entry(LND)] }), None);
    assert_eq!(sketch_settings(&AlgoCfg::Cln { stagger_ms: 5 }), None);
}

#[test]
fn offsets_are_bounded_by_the_stagger() {
    let stagger = SimDuration::from_millis(1000);
    assert_eq!(offset_window(stagger, None), stagger);
    assert_eq!(offset_window(stagger, Some(300)), SimDuration::from_millis(300));
    assert_eq!(offset_window(stagger, Some(5000)), stagger);
}

#[test]
fn schedules_are_counted_by_kind() {
    let mut events = vec![event(1, 0), event(2, 1), event(3, 2), event(4, 3)];
    events[1].2.kind = GossipKind::NodeAnnouncement;
    events[2].2.kind = GossipKind::ChannelAnnouncement;
    events[3].2.kind = GossipKind::ChannelUpdate;
    events[0].2.kind = GossipKind::ChannelUpdate;
    assert_eq!(count_kinds(&events), (2, 1, 1));
    assert_eq!(count_kinds(&[]), (0, 0, 0));
}
