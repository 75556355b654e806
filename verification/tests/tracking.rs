use task_explorer::tracking::{PidSet, Snapshot, Suspensions};

#[test]
fn pid_set_basics() {
    let mut s = PidSet::new();
    s.insert(3);
    s.insert(3);
    s.insert(8);
    assert_eq!(s.len(), 2);
    assert!(s.contains(8));
    s.remove(3);
    assert!(!s.contains(3));
    assert_eq!(s.to_vec(), vec![8]);
    let t = PidSet::from_pids(&vec![1, 1, 2]);
    assert_eq!(t.len(), 2);
    s.clear();
    assert_eq!(s.len(), 0);
}

#[test]
fn snapshot_and_diff() {
    let mut snap = Snapshot::new();
    snap.take(&vec![1, 2, 3]);
    assert!(snap.taken);
    assert!(!snap.shows_as_new(99));
    snap.toggle_diff();
    assert!(snap.shows_as_new(99));
    assert!(!snap.shows_as_new(2));
    snap.clear();
    assert!(!snap.taken && !snap.diff_mode);
    assert!(!snap.shows_as_new(99));
}

#[test]
fn boost_mode_round_trip() {
    let mut s = Suspensions::new();
    s.note_suspended(7);
    let n = s.start_boost(&vec![10, 11, 10]);
    assert_eq!(n, 2);
    assert!(s.boost_active);
    assert!(s.suspended.contains(10) && s.suspended.contains(7));
    let mut back = s.end_boost();
    back.sort();
    assert_eq!(back, vec![10, 11]);
    assert!(!s.boost_active);
    assert!(s.suspended.contains(7));
    assert!(!s.suspended.contains(10) && !s.suspended.contains(11));
    s.note_resumed(7);
    assert_eq!(s.suspended.len(), 0);
}

#[test]
fn closed_processes_in_diff_mode() {
    let mut snap = Snapshot::new();
    snap.take(&vec![1, 2, 3, 2]);
    // comparison off: nothing listed
    assert_eq!(snap.closed_pids(&vec![1]), Vec::<u32>::new());
    snap.toggle_diff();
    let mut gone = snap.closed_pids(&vec![3, 4, 1]);
    gone.sort();
    assert_eq!(gone, vec![2]);
    let mut all = snap.closed_pids(&vec![]);
    all.sort();
    assert_eq!(all, vec![1, 2, 3]);
    assert_eq!(snap.closed_pids(&vec![1, 2, 3]), Vec::<u32>::new());
}
