use lnconv_core::reservoir::Reservoir;

#[test]
fn fills_during_warmup() {
    let mut r = Reservoir::<u32>::new(4, 7);
    for i in 0..3 {
        r.observe(i);
    }
    assert_eq!(r.samples().len(), 3);
    assert_eq!(r.seen(), 3);
    r.observe(99);
    assert_eq!(r.samples().len(), 4);
    assert_eq!(r.seen(), 4);
}

#[test]
fn capacity_caps_buffer() {
    let mut r = Reservoir::<u32>::new(4, 7);
    for i in 0..1000 {
        r.observe(i);
    }
    assert_eq!(r.samples().len(), 4);
    assert_eq!(r.seen(), 1000);
}

#[test]
fn deterministic_under_same_seed() {
    let mut a = Reservoir::<u32>::new(8, 0xdead_beef);
    let mut b = Reservoir::<u32>::new(8, 0xdead_beef);
    for i in 0..10_000u32 {
        a.observe(i);
        b.observe(i);
    }
    assert_eq!(a.samples(), b.samples());
    assert_eq!(a.seen(), b.seen());
}

#[test]
fn approximate_uniform_sampling() {
    let mut r = Reservoir::<u32>::new(1024, 42);
    for i in 0..100_000u32 {
        r.observe(i);
    }
    let sum: u64 = r.samples().iter().map(|&x| x as u64).sum();
    let mean = sum / r.samples().len() as u64;
    assert!(
        mean > 45_000 && mean < 55_000,
        "reservoir mean drift: {mean}"
    );
}

#[test]
fn zero_capacity_drops_everything() {
    let mut r = Reservoir::<u32>::new(0, 1);
    for i in 0..10 {
        r.observe(i);
    }
    assert!(r.samples().is_empty());
    assert_eq!(r.seen(), 10);
}

/// Samples come from the stream, and different seeds keep different ones.
#[test]
fn samples_are_of_the_stream() {
    let mut a = Reservoir::<u32>::new(16, 1);
    let mut b = Reservoir::<u32>::new(16, 2);
    for i in 0..5_000u32 {
        a.observe(2 * i);
        b.observe(2 * i);
    }
    assert!(a.samples().iter().all(|x| x % 2 == 0 && *x < 10_000));
    assert_ne!(a.samples(), b.samples());
    assert_eq!(a.capacity(), 16);
    assert_eq!(a.into_inner().len(), 16);
}
