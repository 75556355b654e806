use task_explorer::heuristics::{anomaly_reasons, cpu_level, row_alerts, top_rows, Anomaly, CpuLevel, RowAlert};
use task_explorer::system::{cpu_order_key, ProcessItem};

fn proc_item(name: &str, path: &str, cpu: f32, parent: Option<u32>, mem: u64) -> ProcessItem {
    ProcessItem {
        pid: 3,
        parent_pid: parent,
        name: name.to_string(),
        exe_path: path.to_string(),
        cmd_line: String::new(),
        cpu_order: cpu_order_key(cpu.to_bits()),
        memory_bytes: mem,
        disk_read_bytes_sec: 0,
        disk_write_bytes_sec: 0,
        status: "Run".to_string(),
        total_read_bytes: 0,
        total_written_bytes: 0,
        start_time: 0,
    }
}

#[test]
fn anomaly_scan() {
    let temp = proc_item("upd.exe", "C:\\Users\\me\\AppData\\Local\\Temp\\upd.exe", 1.0, Some(1), 0);
    assert_eq!(anomaly_reasons(&temp), vec![Anomaly::RunningFromTemp]);
    let headless = proc_item("worker", "", 45.0, None, 0);
    assert_eq!(anomaly_reasons(&headless), vec![Anomaly::HeadlessHighCpu]);
    let exe = proc_item("worker.exe", "", 45.0, None, 0);
    assert_eq!(anomaly_reasons(&exe), Vec::<Anomaly>::new());
    let miner = proc_item("XMRig", "", 45.0, None, 0);
    assert_eq!(anomaly_reasons(&miner), vec![Anomaly::HeadlessHighCpu, Anomaly::SuspiciousName]);
    let calm = proc_item("bash", "/bin/bash", 40.0, None, 0);
    assert_eq!(anomaly_reasons(&calm), Vec::<Anomaly>::new());
    assert_eq!(Anomaly::SuspiciousName.describe(), "Suspicious name (miner)");
    assert_eq!(Anomaly::RunningFromTemp.describe(), "Running from Temp folder");
    assert_eq!(Anomaly::HeadlessHighCpu.describe(), "High CPU, no parent, unknown path");
}

#[test]
fn fake_system_processes() {
    let fake = proc_item("svchost.exe", "C:\\Users\\me\\Downloads\\svchost.exe", 1.0, Some(1), 0);
    assert_eq!(anomaly_reasons(&fake), vec![Anomaly::FakeSystemProcess]);
    let real = proc_item("svchost.exe", "C:\\Windows\\System32\\svchost.exe", 1.0, Some(1), 0);
    assert_eq!(anomaly_reasons(&real), Vec::<Anomaly>::new());
    let shell = proc_item("Explorer.EXE", "c:\\windows\\explorer.exe", 1.0, Some(1), 0);
    assert_eq!(anomaly_reasons(&shell), Vec::<Anomaly>::new());
    // the path of a protected system process often cannot be read
    let hidden = proc_item("csrss.exe", "", 1.0, None, 0);
    assert_eq!(anomaly_reasons(&hidden), Vec::<Anomaly>::new());
    let temp_fake = proc_item("lsass.exe", "C:\\Users\\me\\AppData\\Local\\Temp\\lsass.exe", 1.0, None, 0);
    assert_eq!(anomaly_reasons(&temp_fake), vec![Anomaly::RunningFromTemp, Anomaly::FakeSystemProcess]);
    assert_eq!(Anomaly::FakeSystemProcess.describe(), "System name outside the Windows folder");
}

#[test]
fn row_markers() {
    let p = proc_item("a", "", 60.0, None, 2 << 30);
    assert_eq!(
        row_alerts(&p, true, true, true),
        vec![RowAlert::Suspended, RowAlert::HighCpu, RowAlert::HighMemory, RowAlert::Leak, RowAlert::New]
    );
    let q = proc_item("a", "", 50.0, None, 1 << 30);
    assert_eq!(row_alerts(&q, false, false, false), Vec::<RowAlert>::new());
}

#[test]
fn cpu_levels() {
    assert_eq!(cpu_level(cpu_order_key(50.5f32.to_bits())), CpuLevel::High);
    assert_eq!(cpu_level(cpu_order_key(50.0f32.to_bits())), CpuLevel::Elevated);
    assert_eq!(cpu_level(cpu_order_key(20.0f32.to_bits())), CpuLevel::Normal);
    assert_eq!(cpu_level(cpu_order_key(0.0f32.to_bits())), CpuLevel::Normal);
}

#[test]
fn top_rows_are_a_stable_descending_sort() {
    let values: Vec<u128> = vec![5, 0, 9, 5, 7, 0];
    assert_eq!(top_rows(&values, 0, 3), vec![2, 4, 0]);
    assert_eq!(top_rows(&values, 0, 10), vec![2, 4, 0, 3]);
    assert_eq!(top_rows(&values, 6, 3), vec![2, 4]);
    assert_eq!(top_rows(&values, 9, 3), Vec::<usize>::new());
}
