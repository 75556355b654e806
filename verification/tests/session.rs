use task_explorer::session::{Action, Event, Page, Session};
use task_explorer::system::{cpu_order_key, ProcessItem};
use task_explorer::ui::{ProcessesSubTab, SortKey, Tab};

fn item(pid: u32, name: &str, cpu: f32, mem: u64) -> ProcessItem {
    ProcessItem {
        pid,
        parent_pid: None,
        name: name.to_string(),
        exe_path: String::new(),
        cmd_line: String::new(),
        cpu_order: cpu_order_key(cpu.to_bits()),
        memory_bytes: mem,
        disk_read_bytes_sec: 0,
        disk_write_bytes_sec: 0,
        status: "Run".to_string(),
        total_read_bytes: 0,
        total_written_bytes: 0,
        start_time: 0,
    }
}

fn sample() -> Vec<ProcessItem> {
    vec![item(30, "chrome.exe", 12.5, 500), item(7, "bash", 0.0, 100), item(401, "Xorg", 3.25, 300)]
}

fn loaded() -> Session {
    let mut s = Session::new();
    assert!(matches!(s.handle(Event::ProcessesLoaded(sample())), Action::Nothing));
    s
}

fn shown_pids(s: &Session) -> Vec<u32> {
    s.table.shown_pids()
}

#[test]
fn session_starts_on_the_overview() {
    let s = Session::new();
    assert_eq!(
        s.page,
        Page { tab: Tab::Overview, subtab: ProcessesSubTab::Processes, processes_expanded: true, show_process_info: false }
    );
    assert!(s.loading);
    assert_eq!(s.table.sort_key, SortKey::Cpu);
    assert!(!s.table.ascending);
    assert!(s.table.shown.is_empty());
    assert_eq!(s.selected_pid, None);
    assert_eq!(s.status, None);
}

#[test]
fn timers_ask_for_readings() {
    let mut s = Session::new();
    assert!(matches!(s.handle(Event::TickFast), Action::RefreshFast));
    assert!(matches!(s.handle(Event::TickSlow), Action::RefreshAll));
    assert!(matches!(s.handle(Event::LoadProcessesNow), Action::RefreshAll));
    assert!(matches!(s.handle(Event::AnimationTick), Action::Nothing));
    assert!(s.loading);
}

#[test]
fn a_reading_fills_the_table_busiest_first() {
    let s = loaded();
    assert!(!s.loading);
    assert_eq!(shown_pids(&s), vec![30, 401, 7]);
}

#[test]
fn an_empty_refresh_asks_for_the_processes() {
    let mut s = loaded();
    assert!(matches!(s.handle(Event::ProcessesRefreshed(vec![])), Action::RefreshProcesses));
    assert_eq!(shown_pids(&s), vec![30, 401, 7]);
    assert!(matches!(s.handle(Event::ProcessesRefreshed(vec![item(9, "top", 1.0, 10)])), Action::Nothing));
    assert_eq!(shown_pids(&s), vec![9]);
}

#[test]
fn search_and_sort_reshape_the_table() {
    let mut s = loaded();
    s.handle(Event::SearchQueryChanged("  XO ".to_string()));
    assert_eq!(shown_pids(&s), vec![401]);
    s.handle(Event::SearchQueryChanged(String::new()));
    s.handle(Event::SortBy(SortKey::Pid));
    assert_eq!((s.table.sort_key, s.table.ascending), (SortKey::Pid, false));
    assert_eq!(shown_pids(&s), vec![401, 30, 7]);
    s.handle(Event::SortBy(SortKey::Pid));
    assert!(s.table.ascending);
    assert_eq!(shown_pids(&s), vec![7, 30, 401]);
    s.handle(Event::ToggleSortOrder);
    assert_eq!(shown_pids(&s), vec![401, 30, 7]);
}

#[test]
fn keyboard_selection_walks_the_rows() {
    let mut s = loaded();
    s.handle(Event::SelectNextProcess);
    assert_eq!(s.selected_pid, Some(30));
    s.handle(Event::SelectNextProcess);
    assert_eq!(s.selected_pid, Some(401));
    s.handle(Event::SelectNextProcess);
    s.handle(Event::SelectNextProcess);
    assert_eq!(s.selected_pid, Some(7));
    s.handle(Event::SelectPreviousProcess);
    assert_eq!(s.selected_pid, Some(401));
}

#[test]
fn pages_and_details() {
    let mut s = Session::new();
    s.handle(Event::ToggleProcessesExpanded);
    assert_eq!(s.page.tab, Tab::Processes);
    assert!(!s.page.processes_expanded);
    assert!(matches!(s.handle(Event::TabSelected(Tab::Processes)), Action::RefreshAll));
    assert!(s.page.processes_expanded);
    assert!(matches!(s.handle(Event::TabSelected(Tab::Disks)), Action::Nothing));
    assert_eq!(s.page.tab, Tab::Disks);
    assert!(matches!(s.handle(Event::ProcessesSubTabSelected(ProcessesSubTab::Startup)), Action::FetchStartupItems));
    assert_eq!((s.page.tab, s.page.subtab), (Tab::Processes, ProcessesSubTab::Startup));
    s.handle(Event::OpenProcessInfo(30));
    assert!(s.page.show_process_info);
    assert_eq!(s.selected_pid, Some(30));
    s.handle(Event::CloseProcessInfo);
    assert!(!s.page.show_process_info);
    s.handle(Event::SelectStartupItem(Some(2)));
    assert_eq!(s.selected_startup, Some(2));
}

#[test]
fn selecting_clears_the_status() {
    let mut s = loaded();
    s.handle(Event::KillFailed("Failed to terminate process (PID: 7)".to_string()));
    assert_eq!(s.status.as_deref(), Some("Failed to terminate process (PID: 7)"));
    s.handle(Event::SelectProcess(Some(7)));
    assert_eq!(s.status, None);
    assert_eq!(s.selected_pid, Some(7));
}

#[test]
fn kill_requests_and_outcomes() {
    let mut s = loaded();
    s.handle(Event::OpenProcessInfo(401));
    assert!(matches!(s.handle(Event::KillProcess(401)), Action::Kill(401)));
    assert!(!s.page.show_process_info);
    assert!(matches!(s.handle(Event::ProcessKilled(401)), Action::ReloadProcesses));
    assert_eq!(s.status.as_deref(), Some("PID 401 terminated."));
    assert_eq!(s.selected_pid, None);
    assert!(matches!(s.handle(Event::KillProcessTree(30)), Action::KillTree(30)));
    assert!(matches!(s.handle(Event::ProcessTreeKilled(30, 4)), Action::ReloadProcesses));
    assert_eq!(s.status.as_deref(), Some("Terminated process tree for PID 30 (4 processes)."));
}

#[test]
fn suspend_and_resume_outcomes() {
    let mut s = loaded();
    assert!(matches!(s.handle(Event::SuspendProcess(7)), Action::Suspend(7)));
    s.handle(Event::ProcessSuspended(7));
    assert!(s.suspensions.suspended.contains(7));
    assert_eq!(s.status.as_deref(), Some("Process PID 7 suspended."));
    assert!(matches!(s.handle(Event::ResumeProcess(7)), Action::Resume(7)));
    s.handle(Event::ProcessResumed(7));
    assert!(!s.suspensions.suspended.contains(7));
    assert_eq!(s.status.as_deref(), Some("Process PID 7 resumed."));
    s.handle(Event::SuspensionFailed("Failed to suspend process PID 8".to_string()));
    assert_eq!(s.status.as_deref(), Some("Error: Failed to suspend process PID 8"));
}

#[test]
fn startup_removal_outcomes() {
    let mut s = Session::new();
    s.handle(Event::SelectStartupItem(Some(0)));
    assert!(matches!(s.handle(Event::RemoveStartupItem(0)), Action::RemoveStartupItem(0)));
    assert!(matches!(s.handle(Event::StartupItemRemoved("Updater".to_string())), Action::FetchStartupItems));
    assert_eq!(s.status.as_deref(), Some("Removed 'Updater' from startup."));
    assert_eq!(s.selected_startup, None);
    s.handle(Event::StartupRemovalFailed("Startup management is only supported on Windows".to_string()));
    assert_eq!(s.status.as_deref(), Some("Startup management is only supported on Windows"));
    match s.handle(Event::OpenStartupLocation("\"C:\\a b\\x.exe\" /min".to_string())) {
        Action::OpenLocation(cmd) => assert_eq!(cmd, "\"C:\\a b\\x.exe\" /min"),
        other => panic!("{:?}", other),
    }
}

#[test]
fn online_search_opens_the_address() {
    let mut s = Session::new();
    match s.handle(Event::SearchProcessOnline("xmrig.exe".to_string())) {
        Action::OpenUrl(url) => {
            assert_eq!(url, "https://www.google.com/search?q=xmrig.exe+process+security+info")
        }
        other => panic!("{:?}", other),
    }
}

#[test]
fn snapshot_then_diff_marks_new_processes() {
    let mut s = loaded();
    s.handle(Event::TakeSnapshot);
    assert!(s.snapshot.taken);
    assert!(!s.snapshot.diff_mode);
    s.handle(Event::ProcessesLoaded(vec![item(30, "chrome.exe", 12.5, 500), item(55, "miner", 90.0, 10)]));
    s.handle(Event::ToggleDiffMode);
    assert!(s.snapshot.shows_as_new(55));
    assert!(!s.snapshot.shows_as_new(30));
    s.handle(Event::ClearSnapshot);
    assert!(!s.snapshot.taken);
    assert!(!s.snapshot.shows_as_new(55));
}

#[test]
fn boost_mode_round_trip_through_the_session() {
    let mut s = loaded();
    s.handle(Event::ProcessSuspended(7));
    assert!(matches!(s.handle(Event::ToggleBoostMode), Action::SuspendHogs));
    assert!(matches!(s.handle(Event::BoostStarted(vec![30, 401])), Action::RefreshAll));
    assert!(s.suspensions.boost_active);
    assert_eq!(s.status.as_deref(), Some("Boost Mode enabled. Suspended 2 background apps."));
    match s.handle(Event::ToggleBoostMode) {
        Action::ResumeAll(mut pids) => {
            pids.sort();
            assert_eq!(pids, vec![30, 401]);
        }
        other => panic!("{:?}", other),
    }
    assert!(!s.suspensions.boost_active);
    assert!(s.suspensions.suspended.contains(7));
    assert!(!s.suspensions.suspended.contains(30));
    assert!(matches!(s.handle(Event::BoostEnded(2)), Action::RefreshAll));
    assert_eq!(s.status.as_deref(), Some("Boost Mode disabled. Resumed 2 apps."));
    s.handle(Event::BoostFailed("no access".to_string()));
    assert_eq!(s.status.as_deref(), Some("Failed to activate Boost Mode: no access"));
}

#[test]
fn steady_growth_is_flagged_through_the_session() {
    let mut s = Session::new();
    for k in 0..15u64 {
        s.handle(Event::ProcessesLoaded(vec![item(1, "leaky", 1.0, 10_000_000 + k * 200_000), item(2, "calm", 1.0, 5_000_000)]));
    }
    assert_eq!(s.leaks.leak_pids(), vec![1]);
    // a refresh of the process list alone does not record memory
    s.handle(Event::ProcessesRefreshed(vec![item(1, "leaky", 1.0, 1)]));
    assert_eq!(s.leaks.leak_pids(), vec![1]);
}

#[test]
fn snapshot_covers_processes_off_screen() {
    let mut s = loaded();
    s.handle(Event::SearchQueryChanged("bash".to_string()));
    assert_eq!(shown_pids(&s), vec![7]);
    s.handle(Event::TakeSnapshot);
    s.handle(Event::SearchQueryChanged(String::new()));
    s.handle(Event::ProcessesLoaded(vec![item(30, "chrome.exe", 12.5, 500), item(7, "bash", 0.0, 100), item(88, "new", 1.0, 1)]));
    s.handle(Event::ToggleDiffMode);
    assert!(!s.snapshot.shows_as_new(30));
    assert!(!s.snapshot.shows_as_new(7));
    assert!(s.snapshot.shows_as_new(88));
    assert_eq!(s.snapshot.closed_pids(&s.table.process_pids()), vec![401]);
}
