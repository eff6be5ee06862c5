use lnconv_core::time::{ns_since_epoch, SimDuration};

#[test]
fn durations_count_nanoseconds() {
    assert_eq!(SimDuration::from_millis(1_500), SimDuration { secs: 1, nanos: 500_000_000 });
    assert_eq!(SimDuration::from_micros(2_000_001), SimDuration { secs: 2, nanos: 1_000 });
    assert_eq!(SimDuration::from_nanos(3_000_000_007).as_nanos(), 3_000_000_007);
    assert_eq!(SimDuration::from_millis(700).times(3), SimDuration::from_millis(2_100));
    assert_eq!(ns_since_epoch(SimDuration::from_millis(2)), 2_000_000);
}
