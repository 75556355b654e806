use task_explorer::system::{cpu_order_key, ProcessItem};
use task_explorer::table::{filter_and_sort, filter_and_sort_at, MAX_DISPLAY};
use task_explorer::ui::SortKey;

fn item(pid: u32, name: &str, cpu: f32, mem: u64, start: u64) -> ProcessItem {
    ProcessItem {
        pid,
        parent_pid: None,
        name: name.to_string(),
        exe_path: String::new(),
        cmd_line: String::new(),
        cpu_order: cpu_order_key(cpu.to_bits()),
        memory_bytes: mem,
        disk_read_bytes_sec: pid as u64,
        disk_write_bytes_sec: 10,
        status: "Run".to_string(),
        total_read_bytes: 0,
        total_written_bytes: 0,
        start_time: start,
    }
}

fn sample() -> Vec<ProcessItem> {
    vec![
        item(30, "Chrome.exe", 12.5, 500, 100),
        item(7, "bash", 0.0, 100, 50),
        item(12, "chrome.exe", 12.5, 900, 0),
        item(401, "Xorg", 3.25, 300, 10),
    ]
}

#[test]
fn sorts_by_pid_both_ways() {
    let items = sample();
    assert_eq!(filter_and_sort_at(&items, "", SortKey::Pid, true, 1000), vec![1, 2, 0, 3]);
    assert_eq!(filter_and_sort_at(&items, "", SortKey::Pid, false, 1000), vec![3, 0, 2, 1]);
}

#[test]
fn cpu_sort_is_stable_then_reversed() {
    let items = sample();
    // ascending: bash 0.0, Xorg 3.25, then the two 12.5 in list order
    assert_eq!(filter_and_sort_at(&items, "", SortKey::Cpu, true, 1000), vec![1, 3, 0, 2]);
    // descending is the reverse, so equal entries come in reverse order
    assert_eq!(filter_and_sort_at(&items, "", SortKey::Cpu, false, 1000), vec![2, 0, 3, 1]);
}

#[test]
fn name_sort_uses_ascii_lowercase() {
    let items = sample();
    assert_eq!(filter_and_sort_at(&items, "", SortKey::Name, true, 1000), vec![1, 0, 2, 3]);
}

#[test]
fn memory_disk_and_age_sorts() {
    let items = sample();
    assert_eq!(filter_and_sort_at(&items, "", SortKey::Memory, true, 1000), vec![1, 3, 0, 2]);
    assert_eq!(filter_and_sort_at(&items, "", SortKey::Disk, false, 1000), vec![3, 0, 2, 1]);
    // ages at t=1000: 900, 950, 0 (unknown start), 990
    assert_eq!(filter_and_sort_at(&items, "", SortKey::Age, true, 1000), vec![2, 0, 1, 3]);
}

#[test]
fn search_matches_name_or_pid_after_trim_and_lowercase() {
    let items = sample();
    assert_eq!(filter_and_sort_at(&items, "  CHROME ", SortKey::Pid, true, 0), vec![2, 0]);
    assert_eq!(filter_and_sort_at(&items, "40", SortKey::Pid, true, 0), vec![3]);
    assert_eq!(filter_and_sort_at(&items, "1", SortKey::Pid, true, 0), vec![2, 3]);
    assert_eq!(filter_and_sort_at(&items, "zzz", SortKey::Pid, true, 0), Vec::<usize>::new());
}

#[test]
fn at_most_a_hundred_rows() {
    let items: Vec<ProcessItem> = (0..250u32).map(|p| item(p, "p", 1.0, p as u64, 0)).collect();
    let shown = filter_and_sort_at(&items, "", SortKey::Memory, false, 0);
    assert_eq!(shown.len(), MAX_DISPLAY);
    assert_eq!(shown[0], 249);
    assert_eq!(shown[99], 150);
    let any = filter_and_sort(&items, "", SortKey::Pid, true);
    assert_eq!(any, (0..100usize).collect::<Vec<_>>());
}
