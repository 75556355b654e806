use vstd::prelude::*;

use crate::pid_table::{
    distinct_entries, entries_map, find_entry, lemma_entries_push, lemma_entries_remove, lemma_entry_lookup,
};

verus! {

/// Consecutive samples a rise must span before it counts as a leak.
pub const LEAK_TICKS: usize = 15;

/// Samples kept per process before the oldest are dropped.
pub const LEAK_HISTORY_MAX: usize = 20;

/// A history after one more sample: once it grows past 20 samples it is cut
/// back to the newest 15.
pub open spec fn with_sample(h: Seq<u64>, m: u64) -> Seq<u64> {
    let g = h.push(m);
    if g.len() > LEAK_HISTORY_MAX {
        g.subrange(g.len() - LEAK_TICKS, g.len() as int)
    } else {
        g
    }
}

/// The history a map holds for `pid`, empty when it holds none.
pub open spec fn history_of(m: Map<u32, Seq<u64>>, pid: u32) -> Seq<u64> {
    if m.contains_key(pid) {
        m[pid]
    } else {
        Seq::empty()
    }
}

/// The histories after recording `samples` (pid, memory) in order.
pub open spec fn recorded(m: Map<u32, Seq<u64>>, samples: Seq<(u32, u64)>) -> Map<u32, Seq<u64>>
    decreases samples.len(),
{
    if samples.len() == 0 {
        m
    } else {
        let before = recorded(m, samples.drop_last());
        let (pid, mem) = samples.last();
        before.insert(pid, with_sample(history_of(before, pid), mem))
    }
}

/// The pids of `samples`.
pub open spec fn sample_pids(samples: Seq<(u32, u64)>) -> Set<u32> {
    Set::new(|p: u32| exists|i: int| 0 <= i < samples.len() && samples[i].0 == p)
}

/// The histories after one refresh: every sample recorded, and processes that
/// are gone forgotten.
pub open spec fn next_histories(m: Map<u32, Seq<u64>>, samples: Seq<(u32, u64)>) -> Map<u32, Seq<u64>> {
    recorded(m, samples).restrict(sample_pids(samples))
}

/// A history shows a leak: its newest 15 samples grow on every tick, the
/// newest is above 1 MB, and it grew by more than 15 per cent of the oldest
/// of them (which must be non-zero).
pub open spec fn is_leaking(h: Seq<u64>) -> bool {
    h.len() >= LEAK_TICKS && {
        let t = h.subrange(h.len() - LEAK_TICKS, h.len() as int);
        let first = t[0];
        let last = t[LEAK_TICKS - 1];
        &&& forall|i: int| 0 <= i < LEAK_TICKS - 1 ==> #[trigger] t[i] < t[i + 1]
        &&& first > 0
        &&& 100 * (last - first) > 15 * first
        &&& last > 1_000_000
    }
}

/// The processes whose history shows a leak.
pub open spec fn leak_set(m: Map<u32, Seq<u64>>) -> Set<u32> {
    Set::new(|p: u32| m.contains_key(p) && is_leaking(m[p]))
}

/// Per-process memory histories and the processes flagged as leaking.
pub struct LeakTracker {
    histories: Vec<(u32, Vec<u64>)>,
    leaks: Vec<u32>,
}

/// `h` with `m` appended, cut back to its newest 15 samples once it holds more than 20.
fn append_sample(h: Vec<u64>, m: u64) -> (g: Vec<u64>)
    ensures
        g@ == with_sample(h@, m),
{
    let mut h = h;
    h.push(m);
    if h.len() > LEAK_HISTORY_MAX {
        let start = h.len() - LEAK_TICKS;
        let mut g: Vec<u64> = Vec::new();
        let mut k = start;
        while k < h.len()
            invariant
                start <= k <= h.len(),
                g@ == h@.subrange(start as int, k as int),
            decreases h.len() - k,
        {
            g.push(h[k]);
            k = k + 1;
            assert(g@ =~= h@.subrange(start as int, k as int));
        }
        g
    } else {
        h
    }
}

/// Whether `h` shows a leak.
fn history_leaks(h: &Vec<u64>) -> (r: bool)
    ensures
        r == is_leaking(h@),
{
    let n = h.len();
    if n < LEAK_TICKS {
        return false;
    }
    let start = n - LEAK_TICKS;
    let ghost t = h@.subrange(start as int, n as int);
    let mut k = start;
    while k + 1 < n
        invariant
            start <= k < n,
            n == h.len(),
            start == n - LEAK_TICKS,
            t == h@.subrange(start as int, n as int),
            forall|i: int| 0 <= i < k - start ==> #[trigger] t[i] < t[i + 1],
        decreases n - k,
    {
        if h[k] >= h[k + 1] {
            assert(t[k - start] >= t[k - start + 1]);
            assert(!(forall|i: int| 0 <= i < LEAK_TICKS - 1 ==> #[trigger] t[i] < t[i + 1]));
            return false;
        }
        k = k + 1;
    }
    let first = h[start];
    let last = h[n - 1];
    assert(first == t[0] && last == t[LEAK_TICKS - 1]);
    if first == 0 || last < first {
        return false;
    }
    (100 * ((last - first) as u128) > 15 * (first as u128)) && last > 1_000_000
}

/// Whether `pid` occurs among the samples.
fn sampled(samples: &Vec<(u32, u64)>, pid: u32) -> (r: bool)
    ensures
        r == sample_pids(samples@).contains(pid),
{
    let mut i: usize = 0;
    while i < samples.len()
        invariant
            i <= samples.len(),
            forall|k: int| 0 <= k < i ==> samples@[k].0 != pid,
        decreases samples.len() - i,
    {
        if samples[i].0 == pid {
            return true;
        }
        i = i + 1;
    }
    false
}

impl LeakTracker {
    /// The memory history held for each process.
    pub closed spec fn histories(&self) -> Map<u32, Seq<u64>> {
        entries_map(self.histories@)
    }

    /// The processes flagged as leaking.
    pub closed spec fn leaks(&self) -> Set<u32> {
        self.leaks@.to_set()
    }

    /// The histories are distinct per process, and the flagged processes are
    /// exactly those whose history shows a leak.
    pub closed spec fn wf(&self) -> bool {
        &&& distinct_entries(self.histories@)
        &&& self.leaks() == leak_set(self.histories())
    }

    /// An empty tracker.
    pub fn new() -> (t: Self)
        ensures
            t.wf(),
            t.histories() == Map::<u32, Seq<u64>>::empty(),
            t.leaks() == Set::<u32>::empty(),
    {
        let t = LeakTracker { histories: Vec::new(), leaks: Vec::new() };
        assert(t.histories() =~= Map::<u32, Seq<u64>>::empty());
        assert(t.leaks() =~= Set::<u32>::empty());
        assert(leak_set(t.histories()) =~= Set::<u32>::empty());
        t
    }

    /// Records one refresh of the process table: appends each process's memory
    /// to its history, forgets processes that are gone, and flags as leaking
    /// exactly those whose history now shows a leak.
    pub fn update(&mut self, samples: &Vec<(u32, u64)>)
        requires
            old(self).wf(),
        ensures
            final(self).wf(),
            final(self).histories() == next_histories(old(self).histories(), samples@),
            final(self).leaks() == leak_set(final(self).histories()),
    {
        let ghost start = self.histories();
        let mut entries: Vec<(u32, Vec<u64>)> = Vec::new();
        std::mem::swap(&mut entries, &mut self.histories);
        let mut k: usize = 0;
        while k < samples.len()
            invariant
                distinct_entries(entries@),
                entries_map(entries@) == recorded(start, samples@.take(k as int)),
                k <= samples.len(),
            decreases samples.len() - k,
        {
            let (pid, mem) = samples[k];
            let ghost before = entries_map(entries@);
            assert(samples@.take(k + 1).drop_last() =~= samples@.take(k as int));
            match find_entry(&entries, pid) {
                Some(i) => {
                    proof {
                        lemma_entry_lookup(entries@, i as int);
                        lemma_entries_remove(entries@, i as int);
                    }
                    let (p, h) = entries.remove(i);
                    let g = append_sample(h, mem);
                    proof {
                        lemma_entries_push(entries@, (p, g));
                    }
                    entries.push((p, g));
                    assert(entries_map(entries@) =~= before.insert(pid, with_sample(history_of(before, pid), mem)));
                },
                None => {
                    let mut g: Vec<u64> = Vec::new();
                    g.push(mem);
                    proof {
                        assert(!before.contains_key(pid));
                        assert(g@ =~= with_sample(history_of(before, pid), mem));
                        lemma_entries_push(entries@, (pid, g));
                    }
                    entries.push((pid, g));
                },
            }
            k = k + 1;
        }
        assert(samples@.take(samples.len() as int) =~= samples@);
        let ghost all = entries@;
        let ghost pids = sample_pids(samples@);
        let mut kept: Vec<(u32, Vec<u64>)> = Vec::new();
        let mut leaks: Vec<u32> = Vec::new();
        let n = entries.len();
        let mut j: usize = 0;
        while j < n
            invariant
                n == entries.len(),
                pids == sample_pids(samples@),
                entries@.len() == all.len(),
                forall|i: int| j <= i < n ==> #[trigger] entries@[i] == all[i],
                distinct_entries(all),
                distinct_entries(kept@),
                j <= n,
                entries_map(kept@) == entries_map(all.take(j as int)).restrict(pids),
                forall|p: u32| leaks@.contains(p) <==> (entries_map(kept@).contains_key(p) && is_leaking(entries_map(kept@)[p])),
            decreases n - j,
        {
            let ghost prefix = all.take(j as int);
            proof {
                assert(all.take(j + 1) =~= prefix.push(all[j as int]));
                assert(distinct_entries(prefix));
                assert(!entries_map(prefix).contains_key(all[j as int].0)) by {
                    if entries_map(prefix).contains_key(all[j as int].0) {
                        let i = choose|i: int| 0 <= i < prefix.len() && prefix[i].0 == all[j as int].0;
                        assert(all[i].0 == all[j as int].0);
                    }
                }
                lemma_entries_push(prefix, all[j as int]);
            }
            let pid = entries[j].0;
            if sampled(samples, pid) {
                let leaking = history_leaks(&entries[j].1);
                let h = entries[j].1.clone();
                proof {
                    assert(h@ == all[j as int].1@);
                    assert(!entries_map(kept@).contains_key(pid));
                    lemma_entries_push(kept@, (pid, h));
                }
                let ghost old_kept = entries_map(kept@);
                let ghost old_leaks = leaks@;
                kept.push((pid, h));
                if leaking {
                    leaks.push(pid);
                }
                proof {
                    let next = entries_map(all.take(j + 1));
                    assert(next == entries_map(prefix).insert(pid, h@));
                    assert(pids.contains(pid));
                    assert(entries_map(kept@) == old_kept.insert(pid, h@));
                    assert(old_kept == entries_map(prefix).restrict(pids));
                    assert(entries_map(kept@) =~= next.restrict(pids));
                    assert forall|p: u32| leaks@.contains(p) <==> (entries_map(kept@).contains_key(p) && is_leaking(entries_map(kept@)[p])) by {
                        assert(leaking ==> leaks@ == old_leaks.push(pid));
                        assert(!leaking ==> leaks@ == old_leaks);
                        if p != pid {
                            if leaking {
                                if leaks@.contains(p) {
                                    let i = choose|i: int| 0 <= i < leaks@.len() && leaks@[i] == p;
                                    assert(old_leaks[i] == p);
                                }
                                if old_leaks.contains(p) {
                                    let i = choose|i: int| 0 <= i < old_leaks.len() && old_leaks[i] == p;
                                    assert(leaks@[i] == p);
                                }
                            }
                        } else {
                            if leaking {
                                assert(leaks@[leaks@.len() - 1] == p);
                            } else if leaks@.contains(p) {
                                assert(old_kept.contains_key(p));
                            }
                        }
                    }
                }
            } else {
                proof {
                    assert(!pids.contains(pid));
                    assert(entries_map(all.take(j + 1)) == entries_map(prefix).insert(pid, all[j as int].1@));
                    assert(entries_map(kept@) =~= entries_map(all.take(j + 1)).restrict(pids));
                }
            }
            j = j + 1;
        }
        assert(all.take(n as int) =~= all);
        assert(entries_map(all) == recorded(start, samples@));
        self.histories = kept;
        self.leaks = leaks;
        assert(self.histories() =~= next_histories(start, samples@));
        assert(self.leaks() =~= leak_set(self.histories()));
    }

    /// Whether `pid` is flagged as leaking.
    pub fn is_flagged(&self, pid: u32) -> (r: bool)
        ensures
            r == self.leaks().contains(pid),
    {
        let mut i: usize = 0;
        while i < self.leaks.len()
            invariant
                i <= self.leaks.len(),
                forall|j: int| 0 <= j < i ==> self.leaks@[j] != pid,
            decreases self.leaks.len() - i,
        {
            if self.leaks[i] == pid {
                assert(self.leaks@.contains(pid));
                return true;
            }
            i = i + 1;
        }
        false
    }

    /// The processes flagged as leaking, each once.
    pub fn leak_pids(&self) -> (pids: Vec<u32>)
        ensures
            pids@.to_set() == self.leaks(),
    {
        self.leaks.clone()
    }
}

/// A history after a sample ends with that sample and holds at most 20
/// samples when it held at most 20 before.
pub proof fn lemma_with_sample(h: Seq<u64>, m: u64)
    ensures
        with_sample(h, m).len() > 0,
        with_sample(h, m).last() == m,
        h.len() <= LEAK_HISTORY_MAX ==> with_sample(h, m).len() <= LEAK_HISTORY_MAX,
{
}

proof fn lemma_recorded(m: Map<u32, Seq<u64>>, samples: Seq<(u32, u64)>, p: u32)
    ensures
        (forall|q: u32| #[trigger] m.contains_key(q) ==> m[q].len() <= LEAK_HISTORY_MAX) ==> (
            recorded(m, samples).contains_key(p) ==> recorded(m, samples)[p].len() <= LEAK_HISTORY_MAX),
        recorded(m, samples).contains_key(p) <== (m.contains_key(p) || sample_pids(samples).contains(p)),
        (exists|i: int| 0 <= i < samples.len() && samples[i].0 == p) ==> 0 <= last_sample_of(samples, p)
            < samples.len() && samples[last_sample_of(samples, p)].0 == p && recorded(m, samples).contains_key(p)
            && recorded(m, samples)[p].last() == samples[last_sample_of(samples, p)].1,
    decreases samples.len(),
{
    if samples.len() > 0 {
        let rest = samples.drop_last();
        lemma_recorded(m, rest, p);
        let (q, x) = samples.last();
        if q == p {
            lemma_with_sample(history_of(recorded(m, rest), p), x);
        }
        if q != p {
            if sample_pids(samples).contains(p) {
                let i = choose|i: int| 0 <= i < samples.len() && samples[i].0 == p;
                assert(rest[i].0 == p);
                assert(sample_pids(rest).contains(p));
            }
            if exists|i: int| 0 <= i < samples.len() && samples[i].0 == p {
                let i = choose|i: int| 0 <= i < samples.len() && samples[i].0 == p;
                assert(rest[i].0 == p);
                assert(last_sample_of(samples, p) == last_sample_of(rest, p));
            }
        }
        if forall|r: u32| #[trigger] m.contains_key(r) ==> m[r].len() <= LEAK_HISTORY_MAX {
            let before = recorded(m, rest);
            lemma_recorded(m, rest, q);
            lemma_with_sample(history_of(before, q), x);
        }
    }
}

/// Where `p` last occurs among the samples.
pub open spec fn last_sample_of(samples: Seq<(u32, u64)>, p: u32) -> int
    decreases samples.len(),
{
    if samples.len() == 0 {
        -1
    } else if samples.last().0 == p {
        samples.len() - 1
    } else {
        last_sample_of(samples.drop_last(), p)
    }
}

/// After a refresh, a process is tracked exactly when it was in the table,
/// its history ends with the memory last reported for it, and no history
/// grows past 20 samples. Only tracked processes can be flagged as leaking.
pub proof fn lemma_refresh_tracks_table(m: Map<u32, Seq<u64>>, samples: Seq<(u32, u64)>, p: u32)
    ensures
        next_histories(m, samples).contains_key(p) <==> sample_pids(samples).contains(p),
        sample_pids(samples).contains(p) ==> next_histories(m, samples)[p].last() == samples[last_sample_of(samples, p)].1,
        (forall|q: u32| #[trigger] m.contains_key(q) ==> m[q].len() <= LEAK_HISTORY_MAX) && next_histories(m, samples).contains_key(p)
            ==> next_histories(m, samples)[p].len() <= LEAK_HISTORY_MAX,
        leak_set(next_histories(m, samples)).contains(p) ==> sample_pids(samples).contains(p),
{
    lemma_recorded(m, samples, p);
}

/// Whether no pid occurs twice among the samples, as in a process table.
pub open spec fn distinct_samples(samples: Seq<(u32, u64)>) -> bool {
    forall|i: int, j: int| 0 <= i < samples.len() && 0 <= j < samples.len() && i != j ==> samples[i].0 != samples[j].0
}

proof fn lemma_recorded_distinct(m: Map<u32, Seq<u64>>, samples: Seq<(u32, u64)>)
    requires
        distinct_samples(samples),
    ensures
        forall|i: int| 0 <= i < samples.len() ==> #[trigger] recorded(m, samples)[samples[i].0]
            == with_sample(history_of(m, samples[i].0), samples[i].1),
        forall|p: u32| (forall|i: int| 0 <= i < samples.len() ==> samples[i].0 != p)
            ==> history_of(#[trigger] recorded(m, samples), p) == history_of(m, p),
    decreases samples.len(),
{
    if samples.len() > 0 {
        let rest = samples.drop_last();
        let n = rest.len() as int;
        assert(distinct_samples(rest)) by {
            assert forall|i: int, j: int| 0 <= i < rest.len() && 0 <= j < rest.len() && i != j implies rest[i].0 != rest[j].0 by {
                assert(rest[i] == samples[i] && rest[j] == samples[j]);
            }
        }
        lemma_recorded_distinct(m, rest);
        let (pid, mem) = samples.last();
        assert forall|i: int| 0 <= i < rest.len() implies rest[i].0 != pid by {
            assert(rest[i] == samples[i]);
            assert(samples[n] == samples.last());
        }
        let before = recorded(m, rest);
        assert(history_of(before, pid) == history_of(m, pid));
        assert forall|i: int| 0 <= i < samples.len() implies #[trigger] recorded(m, samples)[samples[i].0]
            == with_sample(history_of(m, samples[i].0), samples[i].1) by {
            if i < n {
                assert(samples[i] == rest[i]);
                assert(rest[i].0 != pid);
                assert(before.contains_key(rest[i].0)) by {
                    lemma_recorded(m, rest, rest[i].0);
                    assert(sample_pids(rest).contains(rest[i].0));
                }
            }
        }
        assert forall|p: u32| (forall|i: int| 0 <= i < samples.len() ==> samples[i].0 != p)
            implies history_of(#[trigger] recorded(m, samples), p) == history_of(m, p) by {
            assert forall|i: int| 0 <= i < rest.len() implies rest[i].0 != p by {
                assert(rest[i] == samples[i]);
            }
            assert(samples[n].0 != p);
        }
    }
}

/// In a refresh where no pid is sampled twice, each sampled process's new
/// history is its previous history (empty for a process not tracked before)
/// with the new memory reading appended, cut back to the newest 15 once it
/// grows past 20; processes that were not sampled are forgotten.
pub proof fn lemma_leak_history(m: Map<u32, Seq<u64>>, samples: Seq<(u32, u64)>)
    requires
        distinct_samples(samples),
    ensures
        forall|i: int| 0 <= i < samples.len() ==> #[trigger] next_histories(m, samples)[samples[i].0]
            == with_sample(history_of(m, samples[i].0), samples[i].1),
        forall|p: u32| #[trigger] next_histories(m, samples).contains_key(p) <==> sample_pids(samples).contains(p),
{
    lemma_recorded_distinct(m, samples);
    assert forall|i: int| 0 <= i < samples.len() implies #[trigger] next_histories(m, samples)[samples[i].0]
        == with_sample(history_of(m, samples[i].0), samples[i].1) by {
        lemma_recorded(m, samples, samples[i].0);
        assert(sample_pids(samples).contains(samples[i].0));
    }
    assert forall|p: u32| #[trigger] next_histories(m, samples).contains_key(p) <==> sample_pids(samples).contains(p) by {
        lemma_recorded(m, samples, p);
    }
}

/// A process is flagged as leaking exactly when it is tracked and, with `h`
/// its history of `n` samples: there are at least 15 samples, each of the
/// newest 15 is above the one before it, the first of them is not zero, the
/// newest grew from that first one by more than 15 per cent of it, and the
/// newest is above 1 MB.
pub proof fn lemma_leak_flags(m: Map<u32, Seq<u64>>, p: u32)
    ensures
        leak_set(m).contains(p) <==> m.contains_key(p) && {
            let h = m[p];
            let n = h.len() as int;
            &&& n >= 15
            &&& forall|k: int| n - 15 <= k < n - 1 ==> #[trigger] h[k] < h[k + 1]
            &&& h[n - 15] > 0
            &&& 100 * (h[n - 1] - h[n - 15]) > 15 * h[n - 15]
            &&& h[n - 1] > 1_000_000
        },
{
    if m.contains_key(p) {
        let h = m[p];
        let n = h.len() as int;
        if n >= 15 {
            let t = h.subrange(n - 15, n);
            assert(t[0] == h[n - 15] && t[14] == h[n - 1]);
            assert((forall|i: int| 0 <= i < 14 ==> #[trigger] t[i] < t[i + 1])
                <==> (forall|k: int| n - 15 <= k < n - 1 ==> #[trigger] h[k] < h[k + 1])) by {
                if forall|i: int| 0 <= i < 14 ==> #[trigger] t[i] < t[i + 1] {
                    assert forall|k: int| n - 15 <= k < n - 1 implies #[trigger] h[k] < h[k + 1] by {
                        assert(t[k - (n - 15)] == h[k] && t[k - (n - 15) + 1] == h[k + 1]);
                    }
                }
                if forall|k: int| n - 15 <= k < n - 1 ==> #[trigger] h[k] < h[k + 1] {
                    assert forall|i: int| 0 <= i < 14 implies #[trigger] t[i] < t[i + 1] by {
                        assert(t[i] == h[i + n - 15] && t[i + 1] == h[i + n - 15 + 1]);
                    }
                }
            }
        }
    }
}

} // verus!
