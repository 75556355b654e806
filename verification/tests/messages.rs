use task_explorer::messages::{
    boost_failure, boost_status, error_status, is_error_status, search_url, startup_removed, suspension_changed, suspension_failure,
    terminated, tree_terminated,
};

#[test]
fn status_lines() {
    assert_eq!(terminated(77), "PID 77 terminated.");
    assert_eq!(tree_terminated(5, 3), "Terminated process tree for PID 5 (3 processes).");
    assert_eq!(suspension_changed(9, true), "Process PID 9 suspended.");
    assert_eq!(suspension_changed(9, false), "Process PID 9 resumed.");
    assert_eq!(suspension_failure(9, true), "Failed to suspend process PID 9");
    assert_eq!(suspension_failure(9, false), "Failed to resume process PID 9");
    assert_eq!(error_status("boom"), "Error: boom");
    assert_eq!(boost_status(true, 4), "Boost Mode enabled. Suspended 4 background apps.");
    assert_eq!(boost_status(false, 0), "Boost Mode disabled. Resumed 0 apps.");
    assert_eq!(boost_failure("denied"), "Failed to activate Boost Mode: denied");
    assert_eq!(startup_removed("Steam"), "Removed 'Steam' from startup.");
    assert_eq!(search_url("svchost.exe"), "https://www.google.com/search?q=svchost.exe+process+security+info");
}

#[test]
fn error_lines() {
    assert!(is_error_status("Error: x"));
    assert!(is_error_status("Failed to terminate process (PID: 1)"));
    assert!(!is_error_status("PID 1 terminated."));
    assert!(!is_error_status("Err"));
}
