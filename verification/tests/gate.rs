use maze_escape::gate::MoveGate;

#[test]
fn gate_refuses_until_the_interval_is_reached() {
    let mut gate = MoveGate::new(120);
    assert_eq!(gate.interval(), 120);
    assert_eq!(gate.elapsed(), 0);
    assert!(!gate.tick(50));
    assert_eq!(gate.elapsed(), 50);
    assert!(!gate.tick(50));
    assert_eq!(gate.elapsed(), 100);
    assert!(gate.tick(50));
    assert_eq!(gate.elapsed(), 30);
    assert!(!gate.tick(50));
    assert_eq!(gate.elapsed(), 80);
}

#[test]
fn gate_admits_once_per_interval_over_many_small_ticks() {
    let mut gate = MoveGate::new(120_000_000);
    let mut admitted = 0u64;
    let mut passed = 0u64;
    for _ in 0..600 {
        let before = passed / 120_000_000;
        passed += 16_666_667;
        let now = gate.tick(16_666_667);
        assert_eq!(now, passed / 120_000_000 == before + 1);
        assert_eq!(gate.elapsed(), passed % 120_000_000);
        if now {
            admitted += 1;
        }
    }
    assert_eq!(admitted, passed / 120_000_000);
    assert_eq!(admitted, 83);
}

#[test]
fn gate_admits_exactly_when_the_sum_equals_the_interval() {
    let mut gate = MoveGate::new(100);
    assert!(!gate.tick(99));
    assert!(gate.tick(1));
    assert_eq!(gate.elapsed(), 0);
    assert!(gate.tick(100));
    assert_eq!(gate.elapsed(), 0);
}

#[test]
fn gate_admits_one_step_for_a_long_tick_and_drops_full_intervals() {
    let mut gate = MoveGate::new(120);
    assert!(!gate.tick(50));
    assert!(gate.tick(500));
    assert_eq!(gate.elapsed(), 70);
    assert!(!gate.tick(0));
    assert_eq!(gate.elapsed(), 70);
}

#[test]
fn gate_takes_the_longest_tick_without_overflow() {
    let mut gate = MoveGate::new(u64::MAX);
    assert!(!gate.tick(u64::MAX - 1));
    assert!(gate.tick(u64::MAX));
    assert_eq!(gate.elapsed(), u64::MAX - 1);
    let mut small = MoveGate::new(7);
    assert!(small.tick(u64::MAX));
    assert_eq!(small.elapsed(), u64::MAX % 7);
}

#[test]
fn gate_without_interval_admits_every_tick() {
    let mut gate = MoveGate::new(0);
    assert!(gate.tick(0));
    assert!(gate.tick(5));
    assert_eq!(gate.elapsed(), 0);
}
