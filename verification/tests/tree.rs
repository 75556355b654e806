use task_explorer::tree::{has_self_ancestry, kill_failure_message, parent_in_table, process_tree_pids, tree_kill_done, tree_kill_outcome};

#[test]
fn tree_walk_is_depth_first_from_the_root() {
    // 1 -> 2, 3 ; 2 -> 4 ; 3 -> 5 ; 6 unrelated
    let procs = vec![(2, Some(1)), (3, Some(1)), (4, Some(2)), (5, Some(3)), (6, None), (1, None)];
    let pids = process_tree_pids(1, &procs);
    // stack: [1] -> pop 1, push 2,3 -> pop 3, push 5 -> pop 5 -> pop 2, push 4 -> pop 4
    assert_eq!(pids, vec![1, 3, 5, 2, 4]);
}

#[test]
fn tree_of_a_leaf_is_itself() {
    let procs = vec![(2, Some(1)), (1, None)];
    assert_eq!(process_tree_pids(2, &procs), vec![2]);
}

#[test]
fn tree_of_an_unlisted_root() {
    let procs = vec![(7, Some(99)), (8, Some(7))];
    assert_eq!(process_tree_pids(99, &procs), vec![99, 7, 8]);
}

#[test]
fn tree_kill_outcomes() {
    assert_eq!(tree_kill_outcome(10, 3, 3, false), Ok(3));
    assert_eq!(tree_kill_outcome(10, 3, 1, true), Ok(3));
    assert_eq!(tree_kill_outcome(10, 3, 1, false), Ok(1));
    assert_eq!(tree_kill_outcome(10, 3, 0, false), Err("Failed to kill process tree (PID: 10)".to_string()));
    assert!(tree_kill_done(2, 2));
    assert!(!tree_kill_done(2, 1));
    assert!(!tree_kill_done(0, 0));
}

#[test]
fn kill_failure_text() {
    assert_eq!(kill_failure_message(4242), "Failed to terminate process (PID: 4242)");
}

#[test]
fn parent_lookup() {
    let procs = vec![(2, Some(1)), (1, None), (5, Some(2))];
    assert_eq!(parent_in_table(&procs, 5), Some(2));
    assert_eq!(parent_in_table(&procs, 1), None);
    assert_eq!(parent_in_table(&procs, 9), None);
}

#[test]
fn self_ancestry_is_detected() {
    // 1 -> 2 -> 3 -> 1 closes a loop through 1
    let looped = vec![(1, Some(3)), (2, Some(1)), (3, Some(2))];
    assert!(has_self_ancestry(1, &looped));
    assert!(has_self_ancestry(2, &looped));
    // 4 hangs below a loop that does not pass through it
    let below = vec![(4, Some(5)), (5, Some(6)), (6, Some(5))];
    assert!(!has_self_ancestry(4, &below));
    // a process that is its own parent
    assert!(has_self_ancestry(7, &vec![(7, Some(7))]));
    // an ordinary chain ends at a process without a parent
    let chain = vec![(2, Some(1)), (1, None)];
    assert!(!has_self_ancestry(2, &chain));
    assert!(!has_self_ancestry(9, &chain));
}
