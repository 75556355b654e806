use task_explorer::leak::LeakTracker;

fn refresh(t: &mut LeakTracker, samples: &[(u32, u64)]) {
    t.update(&samples.to_vec());
}

#[test]
fn steady_growth_over_fifteen_ticks_is_a_leak() {
    let mut t = LeakTracker::new();
    for k in 0..15u64 {
        refresh(&mut t, &[(1, 10_000_000 + k * 200_000), (2, 5_000_000)]);
        if k < 14 {
            assert!(!t.is_flagged(1), "tick {}", k);
        }
    }
    // 10.0 MB -> 12.8 MB is 28 % growth, never falling, above 1 MB
    assert!(t.is_flagged(1));
    assert!(!t.is_flagged(2));
    assert_eq!(t.leak_pids(), vec![1]);
}

#[test]
fn a_dip_or_small_growth_is_no_leak() {
    let mut t = LeakTracker::new();
    for k in 0..15u64 {
        let dip = if k == 7 { 300_000 } else { 0 };
        refresh(&mut t, &[(1, 10_000_000 + k * 200_000 - dip), (2, 10_000_000 + k * 1000)]);
    }
    assert!(!t.is_flagged(1));
    assert!(!t.is_flagged(2));
}

#[test]
fn fifteen_per_cent_exactly_is_not_enough() {
    let mut t = LeakTracker::new();
    // first 2_000_000, last 2_300_000: exactly 15 %
    for k in 0..15u64 {
        let v = if k == 14 { 2_300_000 } else { 2_000_000 + k * 1000 };
        refresh(&mut t, &[(9, v)]);
    }
    assert!(!t.is_flagged(9));
    let mut u = LeakTracker::new();
    for k in 0..15u64 {
        let v = if k == 14 { 2_300_001 } else { 2_000_000 + k * 1000 };
        refresh(&mut u, &[(9, v)]);
    }
    assert!(u.is_flagged(9));
}

#[test]
fn small_processes_are_never_leaks() {
    let mut t = LeakTracker::new();
    for k in 0..15u64 {
        refresh(&mut t, &[(3, 100_000 + k * 50_000)]);
    }
    // ends at 800_000, below 1 MB
    assert!(!t.is_flagged(3));
}

#[test]
fn gone_processes_are_forgotten() {
    let mut t = LeakTracker::new();
    for k in 0..15u64 {
        refresh(&mut t, &[(1, 10_000_000 + k * 200_000)]);
    }
    assert!(t.is_flagged(1));
    refresh(&mut t, &[(2, 1)]);
    assert!(!t.is_flagged(1));
    // coming back starts a new history
    refresh(&mut t, &[(1, 20_000_000)]);
    assert!(!t.is_flagged(1));
}

#[test]
fn history_is_cut_back_after_twenty_samples() {
    let mut t = LeakTracker::new();
    // 21 rising samples, then the history keeps the newest 15 and still leaks
    for k in 0..21u64 {
        refresh(&mut t, &[(5, 2_000_000 + k * 100_000)]);
    }
    assert!(t.is_flagged(5));
    // a falling sample ends the streak
    refresh(&mut t, &[(5, 1_000_000)]);
    assert!(!t.is_flagged(5));
}

#[test]
fn a_flat_tick_is_no_leak() {
    let mut t = LeakTracker::new();
    for k in 0..15u64 {
        // grows by 30 % overall but stands still between ticks 6 and 7
        let m = if k == 7 { 10_000_000 + 6 * 250_000 } else { 10_000_000 + k * 250_000 };
        refresh(&mut t, &[(1, m)]);
    }
    assert!(!t.is_flagged(1));
    let mut g = LeakTracker::new();
    for k in 0..15u64 {
        refresh(&mut g, &[(1, 10_000_000 + k * 250_000)]);
    }
    assert!(g.is_flagged(1));
}
