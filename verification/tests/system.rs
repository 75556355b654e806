use task_explorer::system::{
    cpu_order_key, detect_gpu_name, disk_kind_label, gpu_name_from_descriptions, hog_pids, DiskInfo, DiskKind,
    ProcessItem, SystemOverview, CPU_KEY_ALERT, CPU_KEY_BUSY, CPU_KEY_HEAVY, CPU_KEY_IDLE,
};

fn disk(total: u64, available: u64) -> DiskInfo {
    DiskInfo {
        name: "sda".to_string(),
        mount_point: "/".to_string(),
        fs_type: "ext4".to_string(),
        total_bytes: total,
        available_bytes: available,
        is_removable: false,
        disk_kind: "SSD".to_string(),
    }
}

fn proc_item(cpu: f32, mem: u64, start: u64, status: &str) -> ProcessItem {
    ProcessItem {
        pid: 1,
        parent_pid: None,
        name: "x".to_string(),
        exe_path: String::new(),
        cmd_line: String::new(),
        cpu_order: cpu_order_key(cpu.to_bits()),
        memory_bytes: mem,
        disk_read_bytes_sec: 0,
        disk_write_bytes_sec: 0,
        status: status.to_string(),
        total_read_bytes: 0,
        total_written_bytes: 0,
        start_time: start,
    }
}

#[test]
fn used_bytes_saturates() {
    assert_eq!(disk(100, 30).used_bytes(), 70);
    assert_eq!(disk(100, 100).used_bytes(), 0);
    assert_eq!(disk(100, 130).used_bytes(), 0);
}

#[test]
fn cpu_keys_order_like_the_floats() {
    let values: Vec<f32> = vec![
        -f32::INFINITY, -1e30, -5.5, -1.0, -1e-40, -0.0, 0.0, 1e-40, 0.01, 0.5, 1.0, 20.0, 40.0, 50.0, 99.99, 100.0, 1e30,
        f32::INFINITY,
    ];
    for a in &values {
        for b in &values {
            let ka = cpu_order_key(a.to_bits());
            let kb = cpu_order_key(b.to_bits());
            assert_eq!(ka.cmp(&kb), a.partial_cmp(b).unwrap(), "{} vs {}", a, b);
        }
    }
}

#[test]
fn cpu_thresholds_are_the_keys_of_their_percentages() {
    assert_eq!(CPU_KEY_IDLE, cpu_order_key(0.01f32.to_bits()));
    assert_eq!(CPU_KEY_BUSY, cpu_order_key(20.0f32.to_bits()));
    assert_eq!(CPU_KEY_HEAVY, cpu_order_key(40.0f32.to_bits()));
    assert_eq!(CPU_KEY_ALERT, cpu_order_key(50.0f32.to_bits()));
}

#[test]
fn ages_and_zombies() {
    let p = proc_item(0.0, 1000, 1000, "Sleep");
    assert_eq!(p.age_secs_at(1200), 200);
    assert_eq!(p.age_secs_at(900), 0);
    assert!(p.is_zombie_like_at(1121));
    assert!(!p.is_zombie_like_at(1120));
    let busy = proc_item(0.01, 1000, 1000, "Sleep");
    assert!(!busy.is_zombie_like_at(5000));
    let big = proc_item(0.0, 524288, 1000, "Sleep");
    assert!(!big.is_zombie_like_at(5000));
    let unknown = proc_item(0.0, 0, 0, "Sleep");
    assert_eq!(unknown.age_secs(), 0);
    assert!(!unknown.is_zombie_like_at(5000));
    let dead = proc_item(90.0, 1 << 30, 0, "Zombie");
    assert!(dead.is_zombie_like_at(0));
    assert!(dead.is_zombie_like());
}

#[test]
fn gpu_names() {
    assert_eq!(detect_gpu_name(), "Unknown GPU");
    assert_eq!(gpu_name_from_descriptions(&vec![]), "Unknown GPU");
    assert_eq!(gpu_name_from_descriptions(&vec!["  ".to_string()]), "Unknown GPU");
    let descs = vec![
        " NVIDIA GeForce RTX 3070 ".to_string(),
        "Intel(R) UHD Graphics".to_string(),
        "NVIDIA GeForce RTX 3070".to_string(),
        "".to_string(),
    ];
    assert_eq!(gpu_name_from_descriptions(&descs), "NVIDIA GeForce RTX 3070 / Intel(R) UHD Graphics");
}

#[test]
fn disk_kinds() {
    assert_eq!(disk_kind_label(DiskKind::Ssd), "SSD");
    assert_eq!(disk_kind_label(DiskKind::Hdd), "HDD");
    assert_eq!(disk_kind_label(DiskKind::Other), "Disk");
}

#[test]
fn boost_candidates() {
    let procs = vec![
        (10, "Chrome.exe".to_string()),
        (11, "code.exe".to_string()),
        (12, "DISCORD.EXE".to_string()),
        (13, "chrome".to_string()),
        (14, "steamwebhelper.exe".to_string()),
    ];
    assert_eq!(hog_pids(&procs), vec![10, 12, 14]);
}

#[test]
fn overview_defaults() {
    let o = SystemOverview::from_parts(Some("Linux".to_string()), None, Some("6.1".to_string()), None, 77, "GPU".to_string());
    assert_eq!(o.os_name, "Linux");
    assert_eq!(o.os_version, "Unknown");
    assert_eq!(o.kernel_version, "6.1");
    assert_eq!(o.host_name, "Unknown");
    assert_eq!(o.uptime_secs, 77);
    assert_eq!(o.gpu_name, "GPU");
}

#[test]
fn a_nan_share_is_neither_idle_nor_busy() {
    for nan in [f32::NAN, -f32::NAN, f32::from_bits(0x7F80_0001), f32::from_bits(0xFFFF_FFFF)] {
        let key = cpu_order_key(nan.to_bits());
        assert_eq!(key, CPU_KEY_IDLE);
        assert!(!(key < CPU_KEY_IDLE));
        assert!(!(key > CPU_KEY_BUSY) && !(key > CPU_KEY_HEAVY) && !(key > CPU_KEY_ALERT));
        // an old, tiny process with a NaN share is not taken for a zombie
        assert!(!proc_item(nan, 10, 1, "Sleep").is_zombie_like_at(1_000));
        assert!(proc_item(0.0, 10, 1, "Sleep").is_zombie_like_at(1_000));
    }
}
