use lnconv_core::node::lnd::calculate_sub_batch_size;
use lnconv_core::time::SimDuration;

/// Reference values from LND with a stagger of 90s, a trickle of 5s and a
/// minimum of 10.
#[test]
fn calculate_sub_batch_size_matches_lnd() {
    let total = SimDuration::from_secs(90);
    let sub = SimDuration::from_secs(5);
    let min = 10;
    assert_eq!(calculate_sub_batch_size(total, sub, min, 360), 20);
    assert_eq!(calculate_sub_batch_size(total, sub, min, 30), 10);
    assert_eq!(calculate_sub_batch_size(total, sub, min, 2), 10);
}

#[test]
fn calculate_sub_batch_size_no_subbatching_when_trickle_exceeds_stagger() {
    let total = SimDuration::from_secs(5);
    let sub = SimDuration::from_secs(10);
    assert_eq!(calculate_sub_batch_size(total, sub, 1, 100), 100);
}

#[test]
fn calculate_sub_batch_size_clamps_at_minimum() {
    let total = SimDuration::from_secs(90);
    let sub = SimDuration::from_secs(5);
    // ceil(20 * 5 / 90) = 2, clamped to min=10.
    assert_eq!(calculate_sub_batch_size(total, sub, 10, 20), 10);
}

/// Durations count in full, down to the sub-second part.
#[test]
fn calculate_sub_batch_size_uses_fractions_of_a_second() {
    let total = SimDuration::from_millis(1500);
    let sub = SimDuration::from_millis(500);
    assert_eq!(calculate_sub_batch_size(total, sub, 1, 9), 3);
    assert_eq!(calculate_sub_batch_size(total, sub, 1, 10), 4);
    let total = SimDuration::from_millis(900);
    let sub = SimDuration::from_millis(50);
    assert_eq!(calculate_sub_batch_size(total, sub, 10, 360), 20);
}

/// The slots of thirteen chunks of at most 78 do not fit a window of 90s
/// with 7s each, but the last chunk still leaves before the next tick.
#[test]
fn last_chunk_leaves_before_the_next_tick() {
    let total = SimDuration::from_secs(90);
    let sub = SimDuration::from_secs(7);
    let chunk = calculate_sub_batch_size(total, sub, 1, 1000);
    assert_eq!(chunk, 78);
    let chunks = 1000usize.div_ceil(chunk);
    assert_eq!(chunks, 13);
    assert!((chunks - 1) * 7 < 90);
}
