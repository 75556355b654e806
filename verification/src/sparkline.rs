use vstd::prelude::*;
use crate::pid_table::{
    distinct_entries, entries_map, find_entry, lemma_entries_push, lemma_entries_remove, lemma_entry_lookup,
};

verus! {

/// Readings kept per process for its mini-chart.
pub const SPARKLINE_LEN: usize = 20;

/// A history after one more reading, the oldest dropped past 20 readings.
pub open spec fn push_capped<T>(h: Seq<T>, x: T) -> Seq<T> {
    let g = h.push(x);
    if g.len() > SPARKLINE_LEN {
        g.drop_first()
    } else {
        g
    }
}

/// The sequence a map holds for `pid`, empty when it holds none.
pub open spec fn held<T>(m: Map<u32, Seq<T>>, pid: u32) -> Seq<T> {
    if m.contains_key(pid) {
        m[pid]
    } else {
        Seq::empty()
    }
}

/// One refresh of the mini-charts over `samples` (pid, reading), in order:
/// each sample takes its process's history out of the previous round (a
/// process met a second time starts afresh), appends the reading, and files
/// the result in the new round. Gives what is left of the previous round, the
/// new round, and the history handed out for each sample.
pub open spec fn sparkline_round<T>(prev: Map<u32, Seq<T>>, samples: Seq<(u32, T)>) -> (Map<u32, Seq<T>>, Map<u32, Seq<T>>, Seq<Seq<T>>)
    decreases samples.len(),
{
    if samples.len() == 0 {
        (prev, Map::empty(), Seq::empty())
    } else {
        let (left, next, out) = sparkline_round(prev, samples.drop_last());
        let (pid, x) = samples.last();
        let h = push_capped(held(left, pid), x);
        (left.remove(pid), next.insert(pid, h), out.push(h))
    }
}

proof fn lemma_round_len<T>(prev: Map<u32, Seq<T>>, samples: Seq<(u32, T)>)
    ensures
        sparkline_round(prev, samples).2.len() == samples.len(),
    decreases samples.len(),
{
    if samples.len() > 0 {
        lemma_round_len(prev, samples.drop_last());
    }
}

/// The recent CPU readings of each process.
pub struct CpuHistories<T> {
    entries: Vec<(u32, Vec<T>)>,
}

fn copy_vec<T: Copy>(v: &Vec<T>) -> (c: Vec<T>)
    ensures
        c@ == v@,
{
    let mut c: Vec<T> = Vec::new();
    let mut i: usize = 0;
    while i < v.len()
        invariant
            i <= v.len(),
            c@ == v@.take(i as int),
        decreases v.len() - i,
    {
        c.push(v[i]);
        i = i + 1;
        assert(c@ =~= v@.take(i as int));
    }
    assert(v@.take(v.len() as int) =~= v@);
    c
}

impl<T: Copy> CpuHistories<T> {
    /// The history held for each process.
    pub closed spec fn histories(&self) -> Map<u32, Seq<T>> {
        entries_map(self.entries@)
    }

    /// Each process has one history, of at most 20 readings.
    pub closed spec fn wf(&self) -> bool {
        &&& distinct_entries(self.entries@)
        &&& capped(self.histories())
    }

    /// No histories yet.
    pub fn new() -> (h: Self)
        ensures
            h.wf(),
            capped(h.histories()),
            h.histories() == Map::<u32, Seq<T>>::empty(),
    {
        let h = CpuHistories { entries: Vec::new() };
        assert(h.histories() =~= Map::<u32, Seq<T>>::empty());
        h
    }

    /// Records one refresh: returns the history of each sample, in order, and
    /// keeps exactly the processes sampled this time.
    pub fn record(&mut self, samples: &Vec<(u32, T)>) -> (out: Vec<Vec<T>>)
        requires
            old(self).wf(),
        ensures
            final(self).wf(),
            capped(final(self).histories()),
            final(self).histories() == sparkline_round(old(self).histories(), samples@).1,
            out.len() == samples.len(),
            forall|i: int| 0 <= i < out.len() ==> (#[trigger] out@[i])@ == sparkline_round(old(self).histories(), samples@).2[i],
            forall|i: int| 0 <= i < out.len() ==> (#[trigger] out@[i])@.len() <= SPARKLINE_LEN,
            distinct_sample_pids(samples@) ==> forall|i: int| 0 <= i < out.len() ==> (#[trigger] out@[i])@
                == latest_with(held(old(self).histories(), samples@[i].0), samples@[i].1),
            distinct_sample_pids(samples@) ==> forall|p: u32| #[trigger] final(self).histories().contains_key(p)
                <==> exists|i: int| 0 <= i < samples.len() && samples@[i].0 == p,
            distinct_sample_pids(samples@) ==> forall|i: int| 0 <= i < out.len()
                ==> #[trigger] final(self).histories()[samples@[i].0] == out@[i]@,
    {
        let ghost prev = self.histories();
        let mut left: Vec<(u32, Vec<T>)> = Vec::new();
        std::mem::swap(&mut left, &mut self.entries);
        let mut next: Vec<(u32, Vec<T>)> = Vec::new();
        let mut out: Vec<Vec<T>> = Vec::new();
        let mut k: usize = 0;
        while k < samples.len()
            invariant
                k <= samples.len(),
                distinct_entries(left@),
                distinct_entries(next@),
                entries_map(left@) == sparkline_round(prev, samples@.take(k as int)).0,
                entries_map(next@) == sparkline_round(prev, samples@.take(k as int)).1,
                out.len() == k,
                forall|i: int| 0 <= i < k ==> (#[trigger] out@[i])@ == sparkline_round(prev, samples@.take(k as int)).2[i],
            decreases samples.len() - k,
        {
            let (pid, x) = samples[k];
            let ghost r = sparkline_round(prev, samples@.take(k as int));
            assert(samples@.take(k + 1).drop_last() =~= samples@.take(k as int));
            assert(samples@.take(k + 1).last() == (pid, x));
            let mut h: Vec<T> = match find_entry(&left, pid) {
                Some(i) => {
                    proof {
                        lemma_entry_lookup(left@, i as int);
                        lemma_entries_remove(left@, i as int);
                    }
                    let (_, h) = left.remove(i);
                    h
                },
                None => {
                    assert(!entries_map(left@).contains_key(pid));
                    Vec::new()
                },
            };
            assert(h@ == held(r.0, pid));
            assert(entries_map(left@) == r.0.remove(pid)) by {
                if !r.0.contains_key(pid) {
                    assert(r.0.remove(pid) =~= r.0);
                }
            }
            h.push(x);
            if h.len() > SPARKLINE_LEN {
                h.remove(0);
            }
            assert(h@ =~= push_capped(held(r.0, pid), x));
            let copy = copy_vec(&h);
            let ghost out_before = out@;
            proof {
                lemma_round_len(prev, samples@.take(k as int));
            }
            out.push(copy);
            match find_entry(&next, pid) {
                Some(i) => {
                    proof {
                        lemma_entry_lookup(next@, i as int);
                        lemma_entries_remove(next@, i as int);
                    }
                    let ghost before = entries_map(next@);
                    next.remove(i);
                    proof {
                        lemma_entries_push(next@, (pid, h));
                    }
                    next.push((pid, h));
                    assert(entries_map(next@) =~= r.1.insert(pid, push_capped(held(r.0, pid), x)));
                },
                None => {
                    proof {
                        assert(!entries_map(next@).contains_key(pid));
                        lemma_entries_push(next@, (pid, h));
                    }
                    next.push((pid, h));
                },
            }
            k = k + 1;
            assert forall|i: int| 0 <= i < k implies (#[trigger] out@[i])@ == sparkline_round(prev, samples@.take(k as int)).2[i] by {
                let nr = sparkline_round(prev, samples@.take(k as int));
                assert(nr.2 == r.2.push(push_capped(held(r.0, pid), x)));
                if i < k - 1 {
                    assert(out@[i] == out_before[i]);
                    assert(out_before[i]@ == r.2[i]);
                } else {
                    assert(out@[i] == copy);
                }
            }
        }
        assert(samples@.take(samples.len() as int) =~= samples@);
        proof {
            lemma_sparkline_round(prev, samples@);
            if distinct_sample_pids(samples@) {
                lemma_sparkline_history(prev, samples@);
            }
        }
        self.entries = next;
        out
    }
}

/// Every history of `m` holds at most 20 readings.
pub open spec fn capped<T>(m: Map<u32, Seq<T>>) -> bool {
    forall|q: u32| #[trigger] m.contains_key(q) ==> m[q].len() <= SPARKLINE_LEN
}

/// The history handed out for each sample ends with that sample's reading,
/// and when no earlier history held more than 20 readings, none does
/// afterwards: every mini-chart shows at most the 20 latest readings.
pub proof fn lemma_sparkline_round<T>(prev: Map<u32, Seq<T>>, samples: Seq<(u32, T)>)
    ensures
        sparkline_round(prev, samples).2.len() == samples.len(),
        forall|i: int| 0 <= i < samples.len() ==> (#[trigger] sparkline_round(prev, samples).2[i]).len() > 0
            && sparkline_round(prev, samples).2[i].last() == samples[i].1,
        capped(prev) ==> capped(sparkline_round(prev, samples).0) && capped(sparkline_round(prev, samples).1)
            && forall|i: int| 0 <= i < samples.len() ==> (#[trigger] sparkline_round(prev, samples).2[i]).len() <= SPARKLINE_LEN,
    decreases samples.len(),
{
    if samples.len() > 0 {
        let rest = samples.drop_last();
        lemma_sparkline_round(prev, rest);
        let (left, next, out) = sparkline_round(prev, rest);
        let (pid, x) = samples.last();
        let h = push_capped(held(left, pid), x);
        assert(h.len() > 0 && h.last() == x);
        assert forall|i: int| 0 <= i < samples.len() implies (#[trigger] sparkline_round(prev, samples).2[i]).len() > 0
            && sparkline_round(prev, samples).2[i].last() == samples[i].1 by {
            if i < rest.len() {
                assert(sparkline_round(prev, samples).2[i] == out[i]);
                assert(samples[i] == rest[i]);
            }
        }
        if capped(prev) {
            assert(held(left, pid).len() <= SPARKLINE_LEN);
            assert(h.len() <= SPARKLINE_LEN);
            assert forall|q: u32| #[trigger] left.remove(pid).contains_key(q) implies left.remove(pid)[q].len() <= SPARKLINE_LEN by {
                assert(left.contains_key(q));
            }
            assert forall|q: u32| #[trigger] next.insert(pid, h).contains_key(q) implies next.insert(pid, h)[q].len() <= SPARKLINE_LEN by {
                if q != pid {
                    assert(next.contains_key(q));
                }
            }
            assert forall|i: int| 0 <= i < samples.len() implies (#[trigger] sparkline_round(prev, samples).2[i]).len() <= SPARKLINE_LEN by {
                if i < rest.len() {
                    assert(sparkline_round(prev, samples).2[i] == out[i]);
                }
            }
        }
    }
}

/// The latest `min(20, h.len() + 1)` readings of `h` followed by `x`.
pub open spec fn latest_with<T>(h: Seq<T>, x: T) -> Seq<T> {
    let g = h.push(x);
    g.subrange(if g.len() > SPARKLINE_LEN { g.len() - SPARKLINE_LEN } else { 0 }, g.len() as int)
}

/// With at most 20 readings, one more reading keeps exactly the latest 20 of
/// the history followed by it.
pub proof fn lemma_push_capped_keeps_latest<T>(h: Seq<T>, x: T)
    requires
        h.len() <= SPARKLINE_LEN,
    ensures
        push_capped(h, x) == latest_with(h, x),
{
    assert(push_capped(h, x) =~= latest_with(h, x));
}

/// Whether no pid occurs twice among the samples, as in a process table.
pub open spec fn distinct_sample_pids<T>(samples: Seq<(u32, T)>) -> bool {
    forall|i: int, j: int| 0 <= i < samples.len() && 0 <= j < samples.len() && i != j ==> samples[i].0 != samples[j].0
}

/// In a refresh where no pid is sampled twice, the history handed out for
/// each sample is its process's previous history (empty for a process not
/// held before) followed by the new reading, cut to the latest 20; the new
/// round holds exactly the sampled processes, each with that history, so a
/// process that was not sampled is dropped and starts afresh when it
/// reappears.
pub proof fn lemma_sparkline_history<T>(prev: Map<u32, Seq<T>>, samples: Seq<(u32, T)>)
    requires
        distinct_sample_pids(samples),
    ensures
        sparkline_round(prev, samples).2.len() == samples.len(),
        forall|i: int| 0 <= i < samples.len() ==> #[trigger] sparkline_round(prev, samples).2[i]
            == push_capped(held(prev, samples[i].0), samples[i].1),
        forall|p: u32| #[trigger] sparkline_round(prev, samples).1.contains_key(p)
            <==> exists|i: int| 0 <= i < samples.len() && samples[i].0 == p,
        forall|i: int| 0 <= i < samples.len() ==> #[trigger] sparkline_round(prev, samples).1[samples[i].0]
            == sparkline_round(prev, samples).2[i],
        forall|p: u32| (forall|i: int| 0 <= i < samples.len() ==> samples[i].0 != p)
            ==> held(#[trigger] sparkline_round(prev, samples).0, p) == held(prev, p),
        capped(prev) ==> forall|i: int| 0 <= i < samples.len() ==> #[trigger] sparkline_round(prev, samples).2[i]
            == latest_with(held(prev, samples[i].0), samples[i].1),
    decreases samples.len(), 1nat,
{
    lemma_round_len(prev, samples);
    if samples.len() > 0 {
        lemma_sparkline_history_step(prev, samples);
    }
    if capped(prev) {
        assert forall|i: int| 0 <= i < samples.len() implies #[trigger] sparkline_round(prev, samples).2[i]
            == latest_with(held(prev, samples[i].0), samples[i].1) by {
            lemma_push_capped_keeps_latest(held(prev, samples[i].0), samples[i].1);
        }
    }
}

proof fn lemma_sparkline_history_step<T>(prev: Map<u32, Seq<T>>, samples: Seq<(u32, T)>)
    requires
        distinct_sample_pids(samples),
        samples.len() > 0,
    ensures
        forall|i: int| 0 <= i < samples.len() ==> #[trigger] sparkline_round(prev, samples).2[i]
            == push_capped(held(prev, samples[i].0), samples[i].1),
        forall|p: u32| #[trigger] sparkline_round(prev, samples).1.contains_key(p)
            <==> exists|i: int| 0 <= i < samples.len() && samples[i].0 == p,
        forall|i: int| 0 <= i < samples.len() ==> #[trigger] sparkline_round(prev, samples).1[samples[i].0]
            == sparkline_round(prev, samples).2[i],
        forall|p: u32| (forall|i: int| 0 <= i < samples.len() ==> samples[i].0 != p)
            ==> held(#[trigger] sparkline_round(prev, samples).0, p) == held(prev, p),
    decreases samples.len(), 0nat,
{
    lemma_round_len(prev, samples);
    {
        let rest = samples.drop_last();
        assert(distinct_sample_pids(rest)) by {
            assert forall|i: int, j: int| 0 <= i < rest.len() && 0 <= j < rest.len() && i != j implies rest[i].0 != rest[j].0 by {
                assert(rest[i] == samples[i] && rest[j] == samples[j]);
            }
        }
        lemma_sparkline_history(prev, rest);
        let (left, next, out) = sparkline_round(prev, rest);
        let n = rest.len() as int;
        let (pid, x) = samples.last();
        assert forall|i: int| 0 <= i < rest.len() implies rest[i].0 != pid by {
            assert(rest[i] == samples[i]);
            assert(samples[n] == samples.last());
        }
        assert(held(left, pid) == held(prev, pid));
        let r = sparkline_round(prev, samples);
        assert forall|i: int| 0 <= i < samples.len() implies #[trigger] r.2[i]
            == push_capped(held(prev, samples[i].0), samples[i].1) by {
            if i < n {
                assert(r.2[i] == out[i]);
                assert(samples[i] == rest[i]);
            }
        }
        assert forall|p: u32| #[trigger] r.1.contains_key(p)
            <==> exists|i: int| 0 <= i < samples.len() && samples[i].0 == p by {
            if r.1.contains_key(p) && p != pid {
                assert(next.contains_key(p));
                let i = choose|i: int| 0 <= i < rest.len() && rest[i].0 == p;
                assert(samples[i] == rest[i]);
            }
            if p == pid {
                assert(samples[n].0 == p);
            }
            if exists|i: int| 0 <= i < samples.len() && samples[i].0 == p {
                let i = choose|i: int| 0 <= i < samples.len() && samples[i].0 == p;
                if i < n {
                    assert(rest[i] == samples[i]);
                }
            }
        }
        assert forall|i: int| 0 <= i < samples.len() implies #[trigger] r.1[samples[i].0] == r.2[i] by {
            if i < n {
                assert(samples[i] == rest[i]);
                assert(rest[i].0 != pid);
                assert(r.2[i] == out[i]);
            }
        }
        assert forall|p: u32| (forall|i: int| 0 <= i < samples.len() ==> samples[i].0 != p)
            implies held(#[trigger] sparkline_round(prev, samples).0, p) == held(prev, p) by {
            assert forall|i: int| 0 <= i < rest.len() implies rest[i].0 != p by {
                assert(rest[i] == samples[i]);
            }
            assert(samples[n].0 != p);
        }
    }
}

} // verus!
