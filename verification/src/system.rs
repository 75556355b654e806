use vstd::prelude::*;
use crate::text::{append_chars, chars_of, contains_chars, has_infix, lowercase, same_chars, to_lowercase, trim, trimmed};

verus! {

/// Memory and swap usage, in bytes.
#[derive(Debug, Clone)]
pub struct MemoryInfo {
    pub used_bytes: u64,
    pub total_bytes: u64,
    pub swap_used_bytes: u64,
    pub swap_total_bytes: u64,
}

/// One mounted disk.
#[derive(Debug, Clone)]
pub struct DiskInfo {
    pub name: String,
    pub mount_point: String,
    pub fs_type: String,
    pub total_bytes: u64,
    pub available_bytes: u64,
    pub is_removable: bool,
    pub disk_kind: String,
}

/// Bytes in use on a disk: the capacity less the free space, and 0 when the
/// free space reported exceeds the capacity.
pub open spec fn used_bytes_of(total: u64, available: u64) -> u64 {
    if available <= total {
        (total - available) as u64
    } else {
        0
    }
}

impl DiskInfo {
    /// The bytes in use on this disk.
    pub fn used_bytes(&self) -> (used: u64)
        ensures
            used == used_bytes_of(self.total_bytes, self.available_bytes),
            used <= self.total_bytes,
    {
        self.total_bytes.saturating_sub(self.available_bytes)
    }
}

/// One network interface: current rates and totals since boot.
#[derive(Debug, Clone)]
pub struct NetworkInterfaceInfo {
    pub name: String,
    pub rx_bytes_sec: u64,
    pub tx_bytes_sec: u64,
    pub total_rx_bytes: u64,
    pub total_tx_bytes: u64,
}

/// Operating system and machine identification.
#[derive(Debug, Clone)]
pub struct SystemOverview {
    pub os_name: String,
    pub os_version: String,
    pub kernel_version: String,
    pub host_name: String,
    pub uptime_secs: u64,
    pub gpu_name: String,
}

/// Whether the bit pattern is that of a NaN: all exponent bits set and a
/// non-zero fraction, with either sign.
pub open spec fn is_nan_bits(bits: u32) -> bool {
    (0x7F80_0000 < bits && bits < 0x8000_0000) || 0xFF80_0000 < bits
}

/// The order key of an `f32` given by its bit pattern: for floats that are not
/// NaN the keys compare as the floats do, and the two zeros share a key. A
/// NaN, which is neither below nor above any share, gets the key of the idle
/// threshold (`CPU_KEY_IDLE`), which is neither below it nor above any of the
/// higher thresholds either.
pub open spec fn f32_order_key(bits: u32) -> u32 {
    if is_nan_bits(bits) {
        CPU_KEY_IDLE
    } else if bits == 0x8000_0000 {
        0x8000_0000
    } else if bits > 0x8000_0000 {
        (0xFFFF_FFFF - bits) as u32
    } else {
        (bits + 0x8000_0000) as u32
    }
}

/// Computes `f32_order_key`.
pub fn cpu_order_key(bits: u32) -> (key: u32)
    ensures
        key == f32_order_key(bits),
{
    if (0x7F80_0000 < bits && bits < 0x8000_0000) || 0xFF80_0000 < bits {
        CPU_KEY_IDLE
    } else if bits == 0x8000_0000 {
        0x8000_0000
    } else if bits > 0x8000_0000 {
        0xFFFF_FFFF - bits
    } else {
        bits + 0x8000_0000
    }
}

/// Order key of a CPU share of 0.01 per cent: below it a process counts as idle.
pub const CPU_KEY_IDLE: u32 = 0xBC23_D70A;

/// Order key of a CPU share of 20 per cent.
pub const CPU_KEY_BUSY: u32 = 0xC1A0_0000;

/// Order key of a CPU share of 40 per cent, the share that the anomaly scan
/// treats as heavy.
pub const CPU_KEY_HEAVY: u32 = 0xC220_0000;

/// Order key of a CPU share of 50 per cent, above which the process table
/// raises a CPU alert.
pub const CPU_KEY_ALERT: u32 = 0xC248_0000;

/// One row of the process table. The CPU share, a float in per cent of all
/// logical CPUs, is held as its order key (`f32_order_key` of its bits).
#[derive(Debug, Clone)]
pub struct ProcessItem {
    pub pid: u32,
    pub parent_pid: Option<u32>,
    pub name: String,
    pub exe_path: String,
    pub cmd_line: String,
    pub cpu_order: u32,
    pub memory_bytes: u64,
    pub disk_read_bytes_sec: u64,
    pub disk_write_bytes_sec: u64,
    pub status: String,
    pub total_read_bytes: u64,
    pub total_written_bytes: u64,
    /// UNIX timestamp in seconds when the process started (0 = unknown).
    pub start_time: u64,
}

/// Seconds a process started at `start_time` has been running at time `now`;
/// 0 when the start is unknown or lies in the future.
pub open spec fn age_at(start_time: u64, now: u64) -> u64 {
    if start_time == 0 || now < start_time {
        0
    } else {
        (now - start_time) as u64
    }
}

/// 512 KiB: a process below it holds no meaningful memory.
pub const IDLE_MEMORY_LIMIT: u64 = 524288;

/// Seconds a process must have run before it can look like a zombie.
pub const ZOMBIE_MIN_AGE: u64 = 120;

/// Whether a process looks like a zombie at time `now`: idle CPU, under 512 KiB
/// of memory and over two minutes old, or a status that says "zombie".
pub open spec fn zombie_like_at(p: ProcessItem, now: u64) -> bool {
    (p.cpu_order < CPU_KEY_IDLE && p.memory_bytes < IDLE_MEMORY_LIMIT && age_at(p.start_time, now)
        > ZOMBIE_MIN_AGE) || has_infix(lowercase(p.status@), "zombie"@)
}

/// The system clock in whole seconds since the Unix epoch: the time elapsed
/// since `UNIX_EPOCH` (`SystemTime::elapsed`), 0 for a clock set before the
/// epoch. Nothing is claimed of the value.
#[verifier::external_body]
pub(crate) fn unix_time_now() -> u64 {
    match std::time::UNIX_EPOCH.elapsed() {
        Ok(d) => d.as_secs(),
        Err(_) => 0,
    }
}

impl ProcessItem {
    /// The age in seconds at time `now` (seconds since the Unix epoch).
    pub fn age_secs_at(&self, now: u64) -> (age: u64)
        ensures
            age == age_at(self.start_time, now),
    {
        if self.start_time == 0 {
            return 0;
        }
        now.saturating_sub(self.start_time)
    }

    /// The age in seconds by the system clock; 0 if the start time is unknown.
    pub fn age_secs(&self) -> (age: u64)
        ensures
            self.start_time == 0 ==> age == 0,
            exists|now: u64| age == age_at(self.start_time, now),
    {
        let now = unix_time_now();
        self.age_secs_at(now)
    }

    /// Whether the process looks like a zombie at time `now`.
    pub fn is_zombie_like_at(&self, now: u64) -> (zombie: bool)
        ensures
            zombie == zombie_like_at(*self, now),
    {
        if self.cpu_order < CPU_KEY_IDLE && self.memory_bytes < IDLE_MEMORY_LIMIT && self.age_secs_at(now)
            > ZOMBIE_MIN_AGE {
            return true;
        }
        let status = to_lowercase(self.status.as_str());
        let word = chars_of("zombie");
        contains_chars(&chars_of(status.as_str()), &word)
    }

    /// Whether the process looks like a zombie by the system clock.
    pub fn is_zombie_like(&self) -> (zombie: bool)
        ensures
            exists|now: u64| zombie == zombie_like_at(*self, now),
    {
        let now = unix_time_now();
        self.is_zombie_like_at(now)
    }
}

/// What the GPU name reads when no display adapter could be found.
pub open spec fn unknown_gpu() -> Seq<char> {
    "Unknown GPU"@
}

/// The GPU name on systems without a display-adapter registry: "Unknown GPU".
pub fn detect_gpu_name() -> (name: String)
    ensures
        name@ == unknown_gpu(),
{
    String::from_str("Unknown GPU")
}

/// The display adapters to list, from their driver descriptions in order:
/// each trimmed, blank ones skipped, and each name kept once.
pub open spec fn gpu_list(descs: Seq<Seq<char>>) -> Seq<Seq<char>>
    decreases descs.len(),
{
    if descs.len() == 0 {
        Seq::empty()
    } else {
        let before = gpu_list(descs.drop_last());
        let d = trimmed(descs.last());
        if d.len() == 0 || before.contains(d) {
            before
        } else {
            before.push(d)
        }
    }
}

/// The parts joined with `sep` between them.
pub open spec fn joined(parts: Seq<Seq<char>>, sep: Seq<char>) -> Seq<char>
    decreases parts.len(),
{
    if parts.len() == 0 {
        Seq::empty()
    } else if parts.len() == 1 {
        parts[0]
    } else {
        joined(parts.drop_last(), sep) + sep + parts.last()
    }
}

/// The GPU name for a list of driver descriptions: the distinct adapters
/// joined by " / ", or "Unknown GPU" when there are none.
pub open spec fn gpu_name_text(descs: Seq<Seq<char>>) -> Seq<char> {
    let list = gpu_list(descs);
    if list.len() == 0 {
        unknown_gpu()
    } else {
        joined(list, " / "@)
    }
}

/// The views of a list of strings.
pub open spec fn string_views(v: Seq<String>) -> Seq<Seq<char>> {
    v.map_values(|s: String| s@)
}

/// The GPU name from the driver descriptions of the display adapters.
pub fn gpu_name_from_descriptions(descs: &Vec<String>) -> (name: String)
    ensures
        name@ == gpu_name_text(string_views(descs@)),
{
    let ghost views = string_views(descs@);
    let mut list: Vec<Vec<char>> = Vec::new();
    let mut i: usize = 0;
    while i < descs.len()
        invariant
            i <= descs.len(),
            views == string_views(descs@),
            list@.len() == gpu_list(views.take(i as int)).len(),
            forall|k: int| 0 <= k < list@.len() ==> (#[trigger] list@[k])@ == gpu_list(views.take(i as int))[k],
        decreases descs.len() - i,
    {
        let ghost before = gpu_list(views.take(i as int));
        assert(views.take(i + 1).drop_last() =~= views.take(i as int));
        assert(views.take(i + 1).last() == descs@[i as int]@);
        let t = trim(descs[i].as_str());
        let d = chars_of(t.as_str());
        let mut seen = false;
        let mut k: usize = 0;
        while k < list.len()
            invariant
                k <= list.len(),
                list@.len() == before.len(),
                forall|j: int| 0 <= j < list@.len() ==> (#[trigger] list@[j])@ == before[j],
                seen == exists|j: int| 0 <= j < k && before[j] == d@,
            decreases list.len() - k,
        {
            if same_chars(&list[k], &d) {
                seen = true;
            }
            k = k + 1;
        }
        assert(seen == before.contains(d@));
        if d.len() > 0 && !seen {
            list.push(d);
        }
        i = i + 1;
        assert forall|j: int| 0 <= j < list@.len() implies (#[trigger] list@[j])@ == gpu_list(views.take(i as int))[j] by {
        }
    }
    assert(views.take(descs.len() as int) =~= views);
    let ghost all = gpu_list(views);
    if list.len() == 0 {
        return String::from_str("Unknown GPU");
    }
    let mut name = String::new();
    append_chars(&mut name, &list[0]);
    let mut k: usize = 1;
    proof {
        reveal_strlit(" / ");
        assert(all.take(1) =~= seq![all[0]]);
        assert(name@ == joined(all.take(1), " / "@));
    }
    while k < list.len()
        invariant
            1 <= k <= list.len(),
            list@.len() == all.len(),
            forall|j: int| 0 <= j < list@.len() ==> (#[trigger] list@[j])@ == all[j],
            name@ == joined(all.take(k as int), " / "@),
        decreases list.len() - k,
    {
        name.append(" / ");
        append_chars(&mut name, &list[k]);
        assert(all.take(k + 1).drop_last() =~= all.take(k as int));
        k = k + 1;
    }
    assert(all.take(list.len() as int) =~= all);
    name
}

/// How a disk stores data.
#[derive(Debug, Clone, Copy, PartialEq, Eq, Structural)]
pub enum DiskKind {
    Ssd,
    Hdd,
    Other,
}

/// The kind text shown for a disk: "SSD", "HDD" or "Disk".
pub open spec fn disk_kind_text(kind: DiskKind) -> Seq<char> {
    match kind {
        DiskKind::Ssd => "SSD"@,
        DiskKind::Hdd => "HDD"@,
        DiskKind::Other => "Disk"@,
    }
}

/// The kind text shown for a disk.
pub fn disk_kind_label(kind: DiskKind) -> (label: String)
    ensures
        label@ == disk_kind_text(kind),
{
    match kind {
        DiskKind::Ssd => String::from_str("SSD"),
        DiskKind::Hdd => String::from_str("HDD"),
        DiskKind::Other => String::from_str("Disk"),
    }
}

/// The programs that boost mode suspends, by lowered process name.
pub open spec fn hog_apps() -> Seq<Seq<char>> {
    seq![
        "chrome.exe"@, "msedge.exe"@, "firefox.exe"@, "brave.exe"@, "opera.exe"@,
        "discord.exe"@, "slack.exe"@, "teams.exe"@, "skype.exe"@, "spotify.exe"@,
        "onedrive.exe"@, "googledrivefs.exe"@, "dropbox.exe"@, "steamwebhelper.exe"@,
        "epicgameslauncher.exe"@, "battlenet.exe"@,
    ]
}

/// The pids, in table order, of the processes whose lowered name is one of
/// the boost-mode programs.
pub open spec fn hog_candidates(procs: Seq<(u32, String)>) -> Seq<u32>
    decreases procs.len(),
{
    if procs.len() == 0 {
        Seq::empty()
    } else {
        let before = hog_candidates(procs.drop_last());
        if hog_apps().contains(lowercase(procs.last().1@)) {
            before.push(procs.last().0)
        } else {
            before
        }
    }
}

/// Whether a lowered name is one of the boost-mode programs.
fn is_hog_name(lower: &Vec<char>) -> (r: bool)
    ensures
        r == hog_apps().contains(lower@),
{
    let apps = vec![
        "chrome.exe", "msedge.exe", "firefox.exe", "brave.exe", "opera.exe",
        "discord.exe", "slack.exe", "teams.exe", "skype.exe", "spotify.exe",
        "onedrive.exe", "googledrivefs.exe", "dropbox.exe", "steamwebhelper.exe",
        "epicgameslauncher.exe", "battlenet.exe",
    ];
    assert(apps@.len() == hog_apps().len());
    assert(forall|k: int| 0 <= k < apps@.len() ==> (#[trigger] apps@[k])@ == hog_apps()[k]);
    let mut k: usize = 0;
    while k < apps.len()
        invariant
            k <= apps.len(),
            apps@.len() == hog_apps().len(),
            forall|j: int| 0 <= j < apps@.len() ==> (#[trigger] apps@[j])@ == hog_apps()[j],
            forall|j: int| 0 <= j < k ==> hog_apps()[j] != lower@,
        decreases apps.len() - k,
    {
        if same_chars(&chars_of(apps[k]), lower) {
            assert(hog_apps()[k as int] == lower@);
            return true;
        }
        k = k + 1;
    }
    false
}

/// Whether `pid` belongs to a listed process whose lowered name is one of
/// the boost-mode programs.
pub open spec fn is_hog_pid(procs: Seq<(u32, String)>, pid: u32) -> bool {
    exists|i: int| 0 <= i < procs.len() && procs[i].0 == pid && hog_apps().contains(lowercase(procs[i].1@))
}

/// Boost mode picks every process whose lowered name is one of the
/// boost-mode programs, however many processes share that name, and no
/// other: each pid it picks belongs to such a process.
pub proof fn lemma_hog_candidates(procs: Seq<(u32, String)>, pids: Seq<u32>)
    requires
        pids == hog_candidates(procs),
    ensures
        forall|i: int| 0 <= i < procs.len() && hog_apps().contains(lowercase((#[trigger] procs[i]).1@))
            ==> pids.contains(procs[i].0),
        forall|k: int| 0 <= k < pids.len() ==> is_hog_pid(procs, #[trigger] pids[k]),
        pids.len() <= procs.len(),
    decreases procs.len(),
{
    if procs.len() > 0 {
        let rest = procs.drop_last();
        let before = hog_candidates(rest);
        lemma_hog_candidates(rest, before);
        let n = rest.len() as int;
        assert forall|i: int| 0 <= i < procs.len() && hog_apps().contains(lowercase((#[trigger] procs[i]).1@))
            implies pids.contains(procs[i].0) by {
            if i < n {
                assert(procs[i] == rest[i]);
                let k = choose|k: int| 0 <= k < before.len() && before[k] == rest[i].0;
                assert(pids[k] == before[k]);
            } else {
                assert(procs[i] == procs.last());
                assert(pids[before.len() as int] == procs[i].0);
            }
        }
        assert forall|k: int| 0 <= k < pids.len() implies is_hog_pid(procs, #[trigger] pids[k]) by {
            if k < before.len() {
                assert(pids[k] == before[k]);
                assert(is_hog_pid(rest, before[k]));
                let i = choose|i: int| 0 <= i < rest.len() && rest[i].0 == before[k] && hog_apps().contains(lowercase(rest[i].1@));
                assert(procs[i] == rest[i]);
            } else {
                assert(procs[n] == procs.last());
                assert(pids == before.push(procs.last().0));
                assert(pids[k] == procs[n].0);
            }
        }
    }
}

/// The pids, in table order, that boost mode tries to suspend.
pub fn hog_pids(procs: &Vec<(u32, String)>) -> (pids: Vec<u32>)
    ensures
        pids@ == hog_candidates(procs@),
{
    let mut pids: Vec<u32> = Vec::new();
    let mut i: usize = 0;
    while i < procs.len()
        invariant
            i <= procs.len(),
            pids@ == hog_candidates(procs@.take(i as int)),
        decreases procs.len() - i,
    {
        assert(procs@.take(i + 1).drop_last() =~= procs@.take(i as int));
        let lower = to_lowercase(procs[i].1.as_str());
        if is_hog_name(&chars_of(lower.as_str())) {
            pids.push(procs[i].0);
        }
        i = i + 1;
    }
    assert(procs@.take(procs.len() as int) =~= procs@);
    pids
}

/// The text shown for an unknown piece of system identification.
pub open spec fn or_unknown(v: Option<String>) -> Seq<char> {
    match v {
        Some(s) => s@,
        None => "Unknown"@,
    }
}

impl SystemOverview {
    /// The overview from what the system reported, "Unknown" standing in for
    /// anything it did not.
    pub fn from_parts(
        os_name: Option<String>,
        os_version: Option<String>,
        kernel_version: Option<String>,
        host_name: Option<String>,
        uptime_secs: u64,
        gpu_name: String,
    ) -> (o: SystemOverview)
        ensures
            o.os_name@ == or_unknown(os_name),
            o.os_version@ == or_unknown(os_version),
            o.kernel_version@ == or_unknown(kernel_version),
            o.host_name@ == or_unknown(host_name),
            o.uptime_secs == uptime_secs,
            o.gpu_name@ == gpu_name@,
    {
        SystemOverview {
            os_name: known_or_unknown(os_name),
            os_version: known_or_unknown(os_version),
            kernel_version: known_or_unknown(kernel_version),
            host_name: known_or_unknown(host_name),
            uptime_secs,
            gpu_name,
        }
    }
}

fn known_or_unknown(v: Option<String>) -> (s: String)
    ensures
        s@ == or_unknown(v),
{
    match v {
        Some(s) => s,
        None => String::from_str("Unknown"),
    }
}

} // verus!
