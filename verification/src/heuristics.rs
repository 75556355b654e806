use vstd::prelude::*;
use crate::system::{ProcessItem, CPU_KEY_ALERT, CPU_KEY_BUSY, CPU_KEY_HEAVY};
use crate::text::{
    chars_of, contains_chars, ends_with_chars, has_infix, has_prefix, has_suffix, lowercase, same_chars, starts_with_chars,
    to_lowercase,
};

verus! {

/// A reason the anomaly scan flags a process.
#[derive(Debug, Clone, Copy, PartialEq, Eq, Structural)]
pub enum Anomaly {
    /// Its executable lies in the user's temporary folder.
    RunningFromTemp,
    /// Heavy CPU use with no parent, no known path and a name not ending in "exe".
    HeadlessHighCpu,
    /// A name typical of crypto miners.
    SuspiciousName,
    /// The name of a Windows system program, run from outside the Windows folder.
    FakeSystemProcess,
}

/// The lowered names of the Windows system programs that malware likes to borrow.
pub open spec fn system_names() -> Seq<Seq<char>> {
    seq![
        "svchost.exe"@, "csrss.exe"@, "lsass.exe"@, "winlogon.exe"@, "services.exe"@, "smss.exe"@,
        "wininit.exe"@, "spoolsv.exe"@, "explorer.exe"@, "dwm.exe"@, "taskhostw.exe"@,
    ]
}

/// The lowered Windows folder, where the system programs live.
pub open spec fn system_folder() -> Seq<char> {
    "c:\\windows\\"@
}

/// Whether a lowered name is one of the system programs.
fn is_system_name(lower: &Vec<char>) -> (r: bool)
    ensures
        r == system_names().contains(lower@),
{
    let names = vec![
        "svchost.exe", "csrss.exe", "lsass.exe", "winlogon.exe", "services.exe", "smss.exe",
        "wininit.exe", "spoolsv.exe", "explorer.exe", "dwm.exe", "taskhostw.exe",
    ];
    assert(names@.len() == system_names().len());
    assert(forall|k: int| 0 <= k < names@.len() ==> (#[trigger] names@[k])@ == system_names()[k]);
    let mut k: usize = 0;
    while k < names.len()
        invariant
            k <= names.len(),
            names@.len() == system_names().len(),
            forall|j: int| 0 <= j < names@.len() ==> (#[trigger] names@[j])@ == system_names()[j],
            forall|j: int| 0 <= j < k ==> system_names()[j] != lower@,
        decreases names.len() - k,
    {
        if same_chars(&chars_of(names[k]), lower) {
            assert(system_names()[k as int] == lower@);
            return true;
        }
        k = k + 1;
    }
    false
}

/// The reasons the anomaly scan gives for `p`, in the order it checks them.
pub open spec fn anomalies_of(p: ProcessItem) -> Seq<Anomaly> {
    let path = lowercase(p.exe_path@);
    let name = lowercase(p.name@);
    let temp = if has_infix(path, "\\appdata\\local\\temp\\"@) {
        seq![Anomaly::RunningFromTemp]
    } else {
        Seq::empty()
    };
    let headless = if p.cpu_order > CPU_KEY_HEAVY && p.parent_pid is None && !has_suffix(name, "exe"@)
        && p.exe_path@.len() == 0 {
        seq![Anomaly::HeadlessHighCpu]
    } else {
        Seq::empty()
    };
    let miner = if has_infix(name, "miner"@) || has_infix(name, "xmrig"@) {
        seq![Anomaly::SuspiciousName]
    } else {
        Seq::empty()
    };
    let fake = if system_names().contains(name) && p.exe_path@.len() > 0 && !has_prefix(path, system_folder()) {
        seq![Anomaly::FakeSystemProcess]
    } else {
        Seq::empty()
    };
    temp + headless + miner + fake
}

/// The reasons the anomaly scan flags `p` for; empty when it looks clean.
pub fn anomaly_reasons(p: &ProcessItem) -> (reasons: Vec<Anomaly>)
    ensures
        reasons@ == anomalies_of(*p),
{
    let path = chars_of(to_lowercase(p.exe_path.as_str()).as_str());
    let name = chars_of(to_lowercase(p.name.as_str()).as_str());
    let mut reasons: Vec<Anomaly> = Vec::new();
    if contains_chars(&path, &chars_of("\\appdata\\local\\temp\\")) {
        reasons.push(Anomaly::RunningFromTemp);
    }
    let no_path = p.exe_path.as_str().unicode_len() == 0;
    if p.cpu_order > CPU_KEY_HEAVY && p.parent_pid.is_none() && !ends_with_chars(&name, &chars_of("exe")) && no_path {
        reasons.push(Anomaly::HeadlessHighCpu);
    }
    if contains_chars(&name, &chars_of("miner")) || contains_chars(&name, &chars_of("xmrig")) {
        reasons.push(Anomaly::SuspiciousName);
    }
    if is_system_name(&name) && !no_path && !starts_with_chars(&path, &chars_of("c:\\windows\\")) {
        reasons.push(Anomaly::FakeSystemProcess);
    }
    assert(reasons@ =~= anomalies_of(*p));
    reasons
}

/// The scan gives each reason at most once, and gives it exactly when its
/// rule holds of the process's own fields: its lowered path contains
/// "\\appdata\\local\\temp\\"; its CPU share is above 40 per cent with
/// no parent, no known path and a lowered name not ending in "exe"; its
/// lowered name contains "miner" or "xmrig"; or its lowered name is a Windows
/// system program's, its path is known and its lowered path does not start
/// with the Windows folder.
pub proof fn lemma_anomaly_rules(p: ProcessItem, reasons: Seq<Anomaly>)
    requires
        reasons == anomalies_of(p),
    ensures
        reasons.no_duplicates(),
        reasons.contains(Anomaly::RunningFromTemp) <==> has_infix(lowercase(p.exe_path@), "\\appdata\\local\\temp\\"@),
        reasons.contains(Anomaly::HeadlessHighCpu) <==> (p.cpu_order > CPU_KEY_HEAVY && p.parent_pid is None
            && !has_suffix(lowercase(p.name@), "exe"@) && p.exe_path@.len() == 0),
        reasons.contains(Anomaly::SuspiciousName) <==> (has_infix(lowercase(p.name@), "miner"@) || has_infix(
            lowercase(p.name@),
            "xmrig"@,
        )),
        reasons.contains(Anomaly::FakeSystemProcess) <==> (system_names().contains(lowercase(p.name@))
            && p.exe_path@.len() > 0 && !has_prefix(lowercase(p.exe_path@), "c:\\windows\\"@)),
{
    let path = lowercase(p.exe_path@);
    let name = lowercase(p.name@);
    let temp = if has_infix(path, "\\appdata\\local\\temp\\"@) { seq![Anomaly::RunningFromTemp] } else { Seq::empty() };
    let headless = if p.cpu_order > CPU_KEY_HEAVY && p.parent_pid is None && !has_suffix(name, "exe"@)
        && p.exe_path@.len() == 0 { seq![Anomaly::HeadlessHighCpu] } else { Seq::empty() };
    let miner = if has_infix(name, "miner"@) || has_infix(name, "xmrig"@) { seq![Anomaly::SuspiciousName] } else { Seq::empty() };
    let fake = if system_names().contains(name) && p.exe_path@.len() > 0 && !has_prefix(path, system_folder()) {
        seq![Anomaly::FakeSystemProcess]
    } else {
        Seq::empty()
    };
    assert(reasons == temp + headless + miner + fake);
    let all = temp + headless + miner + fake;
    assert forall|x: Anomaly| all.contains(x) <==> (temp.contains(x) || headless.contains(x) || miner.contains(x) || fake.contains(x)) by {
        if all.contains(x) {
            let i = choose|i: int| 0 <= i < all.len() && all[i] == x;
            if i < temp.len() {
                assert(temp[i] == x);
            } else if i < temp.len() + headless.len() {
                assert(headless[i - temp.len()] == x);
            } else if i < temp.len() + headless.len() + miner.len() {
                assert(miner[i - temp.len() - headless.len()] == x);
            } else {
                assert(fake[i - temp.len() - headless.len() - miner.len()] == x);
            }
        }
        if temp.contains(x) {
            assert(all[0] == x);
        }
        if headless.contains(x) {
            assert(all[temp.len() as int] == x);
        }
        if miner.contains(x) {
            assert(all[(temp.len() + headless.len()) as int] == x);
        }
        if fake.contains(x) {
            assert(all[(temp.len() + headless.len() + miner.len()) as int] == x);
        }
    }
    assert forall|x: Anomaly| #[trigger] temp.contains(x) <==> (x == Anomaly::RunningFromTemp && temp.len() > 0) by {
        if temp.len() > 0 && x == Anomaly::RunningFromTemp {
            assert(temp[0] == x);
        }
    }
    assert forall|x: Anomaly| #[trigger] headless.contains(x) <==> (x == Anomaly::HeadlessHighCpu && headless.len() > 0) by {
        if headless.len() > 0 && x == Anomaly::HeadlessHighCpu {
            assert(headless[0] == x);
        }
    }
    assert forall|x: Anomaly| #[trigger] miner.contains(x) <==> (x == Anomaly::SuspiciousName && miner.len() > 0) by {
        if miner.len() > 0 && x == Anomaly::SuspiciousName {
            assert(miner[0] == x);
        }
    }
    assert forall|x: Anomaly| #[trigger] fake.contains(x) <==> (x == Anomaly::FakeSystemProcess && fake.len() > 0) by {
        if fake.len() > 0 && x == Anomaly::FakeSystemProcess {
            assert(fake[0] == x);
        }
    }
    assert forall|i: int, j: int| 0 <= i < all.len() && 0 <= j < all.len() && i != j implies all[i] != all[j] by {
        let tl = temp.len() as int;
        let hl = headless.len() as int;
        let ml = miner.len() as int;
        let pick = |k: int|
            if k < tl {
                Anomaly::RunningFromTemp
            } else if k < tl + hl {
                Anomaly::HeadlessHighCpu
            } else if k < tl + hl + ml {
                Anomaly::SuspiciousName
            } else {
                Anomaly::FakeSystemProcess
            };
        assert(all[i] == pick(i));
        assert(all[j] == pick(j));
    }
}

impl Anomaly {
    /// The text shown for the reason.
    pub open spec fn text(self) -> Seq<char> {
        match self {
            Anomaly::RunningFromTemp => "Running from Temp folder"@,
            Anomaly::HeadlessHighCpu => "High CPU, no parent, unknown path"@,
            Anomaly::SuspiciousName => "Suspicious name (miner)"@,
            Anomaly::FakeSystemProcess => "System name outside the Windows folder"@,
        }
    }

    /// The text shown for the reason.
    pub fn describe(&self) -> (s: String)
        ensures
            s@ == self.text(),
    {
        match self {
            Anomaly::RunningFromTemp => String::from_str("Running from Temp folder"),
            Anomaly::HeadlessHighCpu => String::from_str("High CPU, no parent, unknown path"),
            Anomaly::SuspiciousName => String::from_str("Suspicious name (miner)"),
            Anomaly::FakeSystemProcess => String::from_str("System name outside the Windows folder"),
        }
    }
}

/// 1 GiB: a process above it raises a memory alert.
pub const MEMORY_ALERT_BYTES: u64 = 1_073_741_824;

/// A marker appended to a process name in the table.
#[derive(Debug, Clone, Copy, PartialEq, Eq, Structural)]
pub enum RowAlert {
    Suspended,
    HighCpu,
    HighMemory,
    Leak,
    New,
}

/// The markers a row carries, in display order.
pub open spec fn row_alerts_of(p: ProcessItem, suspended: bool, leaking: bool, new: bool) -> Seq<RowAlert> {
    (if suspended { seq![RowAlert::Suspended] } else { Seq::empty() })
        + (if p.cpu_order > CPU_KEY_ALERT { seq![RowAlert::HighCpu] } else { Seq::empty() })
        + (if p.memory_bytes > MEMORY_ALERT_BYTES { seq![RowAlert::HighMemory] } else { Seq::empty() })
        + (if leaking { seq![RowAlert::Leak] } else { Seq::empty() })
        + (if new { seq![RowAlert::New] } else { Seq::empty() })
}

/// The markers of a row: suspended, CPU above 50 %, memory above 1 GiB,
/// leaking, new since the snapshot.
pub fn row_alerts(p: &ProcessItem, suspended: bool, leaking: bool, new: bool) -> (alerts: Vec<RowAlert>)
    ensures
        alerts@ == row_alerts_of(*p, suspended, leaking, new),
{
    let mut alerts: Vec<RowAlert> = Vec::new();
    if suspended {
        alerts.push(RowAlert::Suspended);
    }
    if p.cpu_order > CPU_KEY_ALERT {
        alerts.push(RowAlert::HighCpu);
    }
    if p.memory_bytes > MEMORY_ALERT_BYTES {
        alerts.push(RowAlert::HighMemory);
    }
    if leaking {
        alerts.push(RowAlert::Leak);
    }
    if new {
        alerts.push(RowAlert::New);
    }
    assert(alerts@ =~= row_alerts_of(*p, suspended, leaking, new));
    alerts
}

/// How busy a CPU share is, for its colour.
#[derive(Debug, Clone, Copy, PartialEq, Eq, Structural)]
pub enum CpuLevel {
    Normal,
    Elevated,
    High,
}

/// Above 50 % high, above 20 % elevated, otherwise normal.
pub open spec fn cpu_level_of(key: u32) -> CpuLevel {
    if key > CPU_KEY_ALERT {
        CpuLevel::High
    } else if key > CPU_KEY_BUSY {
        CpuLevel::Elevated
    } else {
        CpuLevel::Normal
    }
}

/// The level of a CPU share given by its order key.
pub fn cpu_level(key: u32) -> (level: CpuLevel)
    ensures
        level == cpu_level_of(key),
{
    if key > CPU_KEY_ALERT {
        CpuLevel::High
    } else if key > CPU_KEY_BUSY {
        CpuLevel::Elevated
    } else {
        CpuLevel::Normal
    }
}

/// A row carries each marker at most once, and exactly when its rule holds:
/// suspended, CPU share above 50 per cent, memory above 1 GiB, leaking, or
/// new since the snapshot.
pub proof fn lemma_row_alert_rules(p: ProcessItem, suspended: bool, leaking: bool, new: bool, alerts: Seq<RowAlert>)
    requires
        alerts == row_alerts_of(p, suspended, leaking, new),
    ensures
        alerts.no_duplicates(),
        alerts.contains(RowAlert::Suspended) <==> suspended,
        alerts.contains(RowAlert::HighCpu) <==> p.cpu_order > CPU_KEY_ALERT,
        alerts.contains(RowAlert::HighMemory) <==> p.memory_bytes > 1_073_741_824,
        alerts.contains(RowAlert::Leak) <==> leaking,
        alerts.contains(RowAlert::New) <==> new,
{
    let s0 = if suspended { seq![RowAlert::Suspended] } else { Seq::<RowAlert>::empty() };
    let s1 = if p.cpu_order > CPU_KEY_ALERT { seq![RowAlert::HighCpu] } else { Seq::<RowAlert>::empty() };
    let s2 = if p.memory_bytes > MEMORY_ALERT_BYTES { seq![RowAlert::HighMemory] } else { Seq::<RowAlert>::empty() };
    let s3 = if leaking { seq![RowAlert::Leak] } else { Seq::<RowAlert>::empty() };
    let s4 = if new { seq![RowAlert::New] } else { Seq::<RowAlert>::empty() };
    assert(alerts == s0 + s1 + s2 + s3 + s4);
    let l0 = s0.len() as int;
    let l1 = s1.len() as int;
    let l2 = s2.len() as int;
    let l3 = s3.len() as int;
    let pick = |k: int|
        if k < l0 {
            RowAlert::Suspended
        } else if k < l0 + l1 {
            RowAlert::HighCpu
        } else if k < l0 + l1 + l2 {
            RowAlert::HighMemory
        } else if k < l0 + l1 + l2 + l3 {
            RowAlert::Leak
        } else {
            RowAlert::New
        };
    assert forall|k: int| 0 <= k < alerts.len() implies #[trigger] alerts[k] == pick(k) by {}
    assert forall|i: int, j: int| 0 <= i < alerts.len() && 0 <= j < alerts.len() && i != j implies alerts[i] != alerts[j] by {
        assert(alerts[i] == pick(i) && alerts[j] == pick(j));
    }
    assert forall|x: RowAlert| #[trigger] alerts.contains(x) implies (x == RowAlert::Suspended ==> suspended)
        && (x == RowAlert::HighCpu ==> p.cpu_order > CPU_KEY_ALERT)
        && (x == RowAlert::HighMemory ==> p.memory_bytes > MEMORY_ALERT_BYTES)
        && (x == RowAlert::Leak ==> leaking) && (x == RowAlert::New ==> new) by {
        let k = choose|k: int| 0 <= k < alerts.len() && alerts[k] == x;
        assert(alerts[k] == pick(k));
    }
    if suspended {
        assert(alerts[0] == RowAlert::Suspended);
    }
    if p.cpu_order > CPU_KEY_ALERT {
        assert(alerts[l0] == RowAlert::HighCpu);
    }
    if p.memory_bytes > MEMORY_ALERT_BYTES {
        assert(alerts[l0 + l1] == RowAlert::HighMemory);
    }
    if leaking {
        assert(alerts[l0 + l1 + l2] == RowAlert::Leak);
    }
    if new {
        assert(alerts[l0 + l1 + l2 + l3] == RowAlert::New);
    }
}

/// The colour level of a CPU share: high exactly above 50 per cent, elevated
/// exactly above 20 and up to 50 per cent, normal otherwise.
pub proof fn lemma_cpu_level_rules(key: u32)
    ensures
        cpu_level_of(key) == CpuLevel::High <==> key > CPU_KEY_ALERT,
        cpu_level_of(key) == CpuLevel::Elevated <==> (CPU_KEY_BUSY < key && key <= CPU_KEY_ALERT),
        cpu_level_of(key) == CpuLevel::Normal <==> key <= CPU_KEY_BUSY,
{
}

/// Entry `i` ranks above entry `j`: a larger value, or an equal value and an
/// earlier place (a stable sort by descending value).
pub open spec fn ranks_above(values: Seq<u128>, i: int, j: int) -> bool {
    values[i] > values[j] || (values[i] == values[j] && i < j)
}

/// `top` holds the first `limit` entries above `threshold` in the order of
/// a stable sort by descending value.
pub open spec fn is_top(values: Seq<u128>, threshold: u128, limit: nat, top: Seq<usize>) -> bool {
    &&& top.len() <= limit
    &&& top.no_duplicates()
    &&& forall|a: int| 0 <= a < top.len() ==> #[trigger] top[a] < values.len() && values[top[a] as int] > threshold
    &&& forall|a: int, b: int| 0 <= a < b < top.len() ==> ranks_above(values, #[trigger] top[a] as int, #[trigger] top[b] as int)
    &&& forall|i: int| 0 <= i < values.len() && values[i] > threshold && !top.contains(i as usize) ==> top.len() == limit
        && forall|a: int| 0 <= a < top.len() ==> ranks_above(values, #[trigger] top[a] as int, i)
}

/// The entries above `threshold` with the largest values, at most `limit` of
/// them, largest first and ties in their original order: the busiest disk
/// users and the heaviest writers of the disk page.
pub fn top_rows(values: &Vec<u128>, threshold: u128, limit: usize) -> (top: Vec<usize>)
    ensures
        is_top(values@, threshold, limit as nat, top@),
{
    let mut order: Vec<usize> = Vec::new();
    let mut i: usize = 0;
    while i < values.len()
        invariant
            i <= values.len(),
            forall|a: int, b: int| 0 <= a < b < order.len() ==> ranks_above(values@, #[trigger] order@[a] as int, #[trigger] order@[b] as int),
            forall|a: int| 0 <= a < order.len() ==> #[trigger] order@[a] < i,
            forall|e: usize| order@.contains(e) <==> (e < i && values@[e as int] > threshold),
        decreases values.len() - i,
    {
        if values[i] > threshold {
            let mut pos: usize = 0;
            while pos < order.len() && values[order[pos]] >= values[i]
                invariant
                    i < values.len(),
                    pos <= order.len(),
                    forall|a: int| 0 <= a < order.len() ==> #[trigger] order@[a] < i,
                    forall|p: int| 0 <= p < pos ==> values@[#[trigger] order@[p] as int] >= values@[i as int],
                decreases order.len() - pos,
            {
                pos = pos + 1;
            }
            let ghost old_order = order@;
            order.insert(pos, i);
            assert(order@ == old_order.insert(pos as int, i));
            assert forall|a: int, b: int| 0 <= a < b < order.len() implies ranks_above(values@, #[trigger] order@[a] as int, #[trigger] order@[b] as int) by {
                if a < pos && b < pos {
                    assert(order@[a] == old_order[a] && order@[b] == old_order[b]);
                } else if a > pos && b > pos {
                    assert(order@[a] == old_order[a - 1] && order@[b] == old_order[b - 1]);
                } else if a < pos && b > pos {
                    assert(order@[a] == old_order[a] && order@[b] == old_order[b - 1]);
                } else if a == pos {
                    assert(order@[b] == old_order[b - 1]);
                    let ip = old_order[pos as int];
                    assert(values@[ip as int] < values@[i as int]);
                    if b - 1 > pos {
                        assert(ranks_above(values@, ip as int, order@[b] as int));
                    }
                } else {
                    assert(order@[a] == old_order[a]);
                }
            }
            assert forall|e: usize| order@.contains(e) implies (e < i + 1 && values@[e as int] > threshold) by {
                let a = choose|a: int| 0 <= a < order@.len() && order@[a] == e;
                if a < pos {
                    assert(old_order[a] == e);
                    assert(old_order.contains(e));
                } else if a > pos {
                    assert(old_order[a - 1] == e);
                    assert(old_order.contains(e));
                } else {
                    assert(e == i);
                }
            }
            assert forall|e: usize| (e < i + 1 && values@[e as int] > threshold) implies order@.contains(e) by {
                if e < i {
                    assert(old_order.contains(e));
                    let a = choose|a: int| 0 <= a < old_order.len() && old_order[a] == e;
                    if a < pos {
                        assert(order@[a] == e);
                    } else {
                        assert(order@[a + 1] == e);
                    }
                } else {
                    assert(order@[pos as int] == e);
                }
            }
            assert forall|a: int| 0 <= a < order.len() implies #[trigger] order@[a] < i + 1 by {
                if a < pos {
                    assert(order@[a] == old_order[a]);
                } else if a > pos {
                    assert(order@[a] == old_order[a - 1]);
                }
            }
        }
        i = i + 1;
    }
    let ghost whole = order@;
    assert forall|a: int, b: int| 0 <= a < whole.len() && 0 <= b < whole.len() && a != b implies whole[a] != whole[b] by {
        if a < b {
            assert(ranks_above(values@, whole[a] as int, whole[b] as int));
        } else {
            assert(ranks_above(values@, whole[b] as int, whole[a] as int));
        }
    }
    order.truncate(limit);
    proof {
        assert(order@ =~= whole.take(order@.len() as int));
        assert forall|a: int| 0 <= a < order@.len() implies #[trigger] order@[a] < values.len() && values@[order@[a] as int] > threshold by {
            assert(whole.contains(whole[a]));
        }
        assert forall|a: int, b: int| 0 <= a < order@.len() && 0 <= b < order@.len() && a != b implies order@[a] != order@[b] by {
            assert(order@[a] == whole[a] && order@[b] == whole[b]);
        }
        assert forall|a: int, b: int| 0 <= a < b < order@.len() implies ranks_above(values@, #[trigger] order@[a] as int, #[trigger] order@[b] as int) by {
            assert(order@[a] == whole[a] && order@[b] == whole[b]);
        }
        assert forall|k: int| 0 <= k < values.len() && values@[k] > threshold && !order@.contains(k as usize) implies order@.len() == limit
            && forall|a: int| 0 <= a < order@.len() ==> ranks_above(values@, #[trigger] order@[a] as int, k) by {
            assert(whole.contains(k as usize));
            let w = choose|w: int| 0 <= w < whole.len() && whole[w] == k as usize;
            if w < order@.len() {
                assert(order@[w] == k as usize);
            }
            assert forall|a: int| 0 <= a < order@.len() implies ranks_above(values@, #[trigger] order@[a] as int, k) by {
                assert(order@[a] == whole[a]);
            }
        }
    }
    order
}

/// A process that has written more than this many bytes is flagged on the
/// SSD wear card.
pub const HEAVY_WRITER_BYTES: u64 = 5_000_000_000;

/// Only processes that have written more than this appear on the wear card.
pub const WEAR_MIN_BYTES: u64 = 1_000_000;

/// Rows shown on each card of the disk page.
pub const DISK_CARD_ROWS: usize = 3;

} // verus!
