use task_explorer::sparkline::{CpuHistories, SPARKLINE_LEN};

#[test]
fn histories_keep_the_latest_twenty_readings() {
    let mut h: CpuHistories<f32> = CpuHistories::new();
    let mut last = Vec::new();
    for k in 0..25 {
        last = h.record(&vec![(10, k as f32), (11, 0.5)]);
    }
    assert_eq!(last.len(), 2);
    assert_eq!(last[0].len(), SPARKLINE_LEN);
    assert_eq!(last[0][0], 5.0);
    assert_eq!(last[0][19], 24.0);
    assert_eq!(last[1], vec![0.5; 20]);
}

#[test]
fn a_process_that_disappears_starts_over() {
    let mut h: CpuHistories<f32> = CpuHistories::new();
    h.record(&vec![(1, 1.0)]);
    h.record(&vec![(1, 2.0)]);
    h.record(&vec![(2, 9.0)]);
    let out = h.record(&vec![(1, 3.0), (2, 8.0)]);
    assert_eq!(out[0], vec![3.0]);
    assert_eq!(out[1], vec![9.0, 8.0]);
}

#[test]
fn a_pid_listed_twice_in_one_round_starts_afresh() {
    let mut h: CpuHistories<u32> = CpuHistories::new();
    h.record(&vec![(4, 1)]);
    let out = h.record(&vec![(4, 2), (4, 3)]);
    assert_eq!(out[0], vec![1, 2]);
    assert_eq!(out[1], vec![3]);
    let next = h.record(&vec![(4, 5)]);
    assert_eq!(next[0], vec![3, 5]);
}
