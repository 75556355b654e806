use vstd::prelude::*;

verus! {

broadcast use vstd::seq::Seq::lemma_push_to_set_commute;

/// A set of pids, each held once.
#[derive(Debug, Clone)]
pub struct PidSet {
    pids: Vec<u32>,
}

impl View for PidSet {
    type V = Set<u32>;

    closed spec fn view(&self) -> Set<u32> {
        self.pids@.to_set()
    }
}

impl PidSet {

    /// Each pid is held once.
    pub closed spec fn wf(&self) -> bool {
        self.pids@.no_duplicates()
    }

    /// The empty set.
    pub fn new() -> (s: Self)
        ensures
            s.wf(),
            s.view() == Set::<u32>::empty(),
    {
        let s = PidSet { pids: Vec::new() };
        assert(s.view() =~= Set::<u32>::empty());
        s
    }

    /// Whether `pid` is in the set.
    pub fn contains(&self, pid: u32) -> (r: bool)
        ensures
            r == self.view().contains(pid),
    {
        let mut i: usize = 0;
        while i < self.pids.len()
            invariant
                i <= self.pids.len(),
                forall|j: int| 0 <= j < i ==> self.pids@[j] != pid,
            decreases self.pids.len() - i,
        {
            if self.pids[i] == pid {
                assert(self.pids@.contains(pid));
                return true;
            }
            i = i + 1;
        }
        false
    }

    /// Adds `pid`.
    pub fn insert(&mut self, pid: u32)
        requires
            old(self).wf(),
        ensures
            final(self).wf(),
            final(self).view() == old(self).view().insert(pid),
    {
        if !self.contains(pid) {
            self.pids.push(pid);
            assert forall|i: int, j: int| 0 <= i < self.pids@.len() && 0 <= j < self.pids@.len() && i != j implies self.pids@[i] != self.pids@[j] by {
                if i == self.pids@.len() - 1 {
                    assert(old(self).pids@.contains(self.pids@[j]));
                } else if j == self.pids@.len() - 1 {
                    assert(old(self).pids@.contains(self.pids@[i]));
                }
            }
        }
        assert(self.view() =~= old(self).view().insert(pid));
    }

    /// Removes `pid`.
    pub fn remove(&mut self, pid: u32)
        requires
            old(self).wf(),
        ensures
            final(self).wf(),
            final(self).view() == old(self).view().remove(pid),
    {
        let mut kept: Vec<u32> = Vec::new();
        let mut i: usize = 0;
        while i < self.pids.len()
            invariant
                i <= self.pids.len(),
                self.pids@ == old(self).pids@,
                old(self).pids@.no_duplicates(),
                kept@.no_duplicates(),
                kept@.to_set() == self.pids@.take(i as int).to_set().remove(pid),
            decreases self.pids.len() - i,
        {
            let x = self.pids[i];
            assert(self.pids@.take(i + 1) == self.pids@.take(i as int).push(x));
            if x != pid {
                assert(!kept@.contains(x)) by {
                    if kept@.contains(x) {
                        assert(kept@.to_set().contains(x));
                        assert(self.pids@.take(i as int).contains(x));
                        let j = choose|j: int| 0 <= j < i && self.pids@.take(i as int)[j] == x;
                        assert(self.pids@[j] == self.pids@[i as int]);
                    }
                }
                let ghost before = kept@;
                kept.push(x);
                assert forall|a: int, b: int| 0 <= a < kept@.len() && 0 <= b < kept@.len() && a != b implies kept@[a] != kept@[b] by {
                    if a == kept@.len() - 1 {
                        assert(before.contains(kept@[b]));
                    } else if b == kept@.len() - 1 {
                        assert(before.contains(kept@[a]));
                    }
                }
            }
            assert(kept@.to_set() =~= self.pids@.take(i + 1).to_set().remove(pid));
            i = i + 1;
        }
        assert(self.pids@.take(self.pids.len() as int) =~= self.pids@);
        self.pids = kept;
    }

    /// Empties the set.
    pub fn clear(&mut self)
        ensures
            final(self).wf(),
            final(self).view() == Set::<u32>::empty(),
    {
        self.pids = Vec::new();
        assert(self.view() =~= Set::<u32>::empty());
    }

    /// The set of the pids in `pids`.
    pub fn from_pids(pids: &Vec<u32>) -> (s: Self)
        ensures
            s.wf(),
            s.view() == pids@.to_set(),
    {
        let mut s = PidSet::new();
        let mut i: usize = 0;
        while i < pids.len()
            invariant
                i <= pids.len(),
                s.wf(),
                s.view() == pids@.take(i as int).to_set(),
            decreases pids.len() - i,
        {
            s.insert(pids[i]);
            assert(pids@.take(i + 1) == pids@.take(i as int).push(pids@[i as int]));
            assert(s.view() =~= pids@.take(i + 1).to_set());
            i = i + 1;
        }
        assert(pids@.take(pids.len() as int) =~= pids@);
        s
    }

    /// The pids in the set, each once.
    pub fn to_vec(&self) -> (v: Vec<u32>)
        ensures
            v@.to_set() == self.view(),
            self.wf() ==> v@.no_duplicates(),
    {
        self.pids.clone()
    }

    /// How many pids the set holds.
    pub fn len(&self) -> (n: usize)
        requires
            self.wf(),
        ensures
            n == self.view().len(),
    {
        proof {
            self.pids@.unique_seq_to_set();
        }
        self.pids.len()
    }
}

/// The process-table snapshot: the pids shown when it was taken, whether one
/// is taken, and whether the table marks processes that appeared since.
pub struct Snapshot {
    pub pids: PidSet,
    pub taken: bool,
    pub diff_mode: bool,
}

impl Snapshot {
    pub open spec fn wf(&self) -> bool {
        self.pids.wf()
    }

    /// No snapshot.
    pub fn new() -> (s: Self)
        ensures
            s.wf(),
            !s.taken,
            !s.diff_mode,
            s.pids.view() == Set::<u32>::empty(),
    {
        Snapshot { pids: PidSet::new(), taken: false, diff_mode: false }
    }

    /// Takes a snapshot of the rows shown, leaving the comparison off.
    pub fn take(&mut self, shown: &Vec<u32>)
        ensures
            final(self).wf(),
            final(self).taken,
            !final(self).diff_mode,
            final(self).pids.view() == shown@.to_set(),
    {
        self.pids = PidSet::from_pids(shown);
        self.taken = true;
        self.diff_mode = false;
    }

    /// Drops the snapshot.
    pub fn clear(&mut self)
        requires
            old(self).wf(),
        ensures
            final(self).wf(),
            !final(self).taken,
            !final(self).diff_mode,
            final(self).pids.view() == Set::<u32>::empty(),
    {
        self.pids.clear();
        self.taken = false;
        self.diff_mode = false;
    }

    /// Turns the comparison with the snapshot on or off.
    pub fn toggle_diff(&mut self)
        ensures
            final(self).diff_mode == !old(self).diff_mode,
            final(self).taken == old(self).taken,
            final(self).pids == old(self).pids,
    {
        self.diff_mode = !self.diff_mode;
    }

    /// The processes of the snapshot that are gone: with the comparison on,
    /// each pid held by the snapshot and absent from `current`, once; with it
    /// off, none.
    pub fn closed_pids(&self, current: &Vec<u32>) -> (gone: Vec<u32>)
        requires
            self.wf(),
        ensures
            self.diff_mode ==> gone@.to_set() == self.pids.view().difference(current@.to_set()),
            !self.diff_mode ==> gone@.len() == 0,
            gone@.no_duplicates(),
    {
        let mut gone: Vec<u32> = Vec::new();
        if !self.diff_mode {
            return gone;
        }
        let held = self.pids.to_vec();
        let mut i: usize = 0;
        while i < held.len()
            invariant
                i <= held.len(),
                held@.no_duplicates(),
                held@.to_set() == self.pids.view(),
                gone@.no_duplicates(),
                forall|x: u32| gone@.contains(x) ==> held@.take(i as int).contains(x),
                gone@.to_set() == held@.take(i as int).to_set().difference(current@.to_set()),
            decreases held.len() - i,
        {
            let x = held[i];
            let ghost before = gone@;
            assert(held@.take(i + 1) == held@.take(i as int).push(x));
            if !contains_pid(current, x) {
                assert(!before.contains(x)) by {
                    if before.contains(x) {
                        let k = choose|k: int| 0 <= k < i && held@.take(i as int)[k] == x;
                        assert(held@[k] == held@[i as int]);
                    }
                }
                gone.push(x);
                assert forall|a: int, b: int| 0 <= a < gone@.len() && 0 <= b < gone@.len() && a != b implies gone@[a] != gone@[b] by {
                    if a < before.len() && b < before.len() {
                        assert(gone@[a] == before[a] && gone@[b] == before[b]);
                    } else if a == before.len() {
                        assert(before.contains(gone@[b]));
                    } else {
                        assert(before.contains(gone@[a]));
                    }
                }
                assert forall|y: u32| gone@.contains(y) implies held@.take(i + 1).contains(y) by {
                    if y != x {
                        let k = choose|k: int| 0 <= k < gone@.len() && gone@[k] == y;
                        assert(before[k] == y);
                        assert(before.contains(y));
                        assert(held@.take(i as int).contains(y));
                        let j = choose|j: int| 0 <= j < i && held@.take(i as int)[j] == y;
                        assert(held@.take(i + 1)[j] == y);
                    } else {
                        assert(held@.take(i + 1)[i as int] == y);
                    }
                }
            } else {
                assert forall|y: u32| gone@.contains(y) implies held@.take(i + 1).contains(y) by {
                    let j = choose|j: int| 0 <= j < i && held@.take(i as int)[j] == y;
                    assert(held@.take(i + 1)[j] == y);
                }
            }
            assert(gone@.to_set() =~= held@.take(i + 1).to_set().difference(current@.to_set()));
            i = i + 1;
        }
        assert(held@.take(held.len() as int) =~= held@);
        gone
    }

    /// Whether the table marks `pid` as new since the snapshot: the comparison
    /// is on and the snapshot does not hold it.
    pub fn shows_as_new(&self, pid: u32) -> (r: bool)
        ensures
            r == (self.diff_mode && !self.pids.view().contains(pid)),
    {
        self.diff_mode && !self.pids.contains(pid)
    }
}

/// Whether `pid` occurs in `pids`.
fn contains_pid(pids: &Vec<u32>, pid: u32) -> (r: bool)
    ensures
        r == pids@.contains(pid),
{
    let mut i: usize = 0;
    while i < pids.len()
        invariant
            i <= pids.len(),
            forall|j: int| 0 <= j < i ==> pids@[j] != pid,
        decreases pids.len() - i,
    {
        if pids[i] == pid {
            assert(pids@[i as int] == pid);
            return true;
        }
        i = i + 1;
    }
    false
}

/// Which processes the user suspended, and the boost-mode session.
pub struct Suspensions {
    pub suspended: PidSet,
    pub boost_active: bool,
    pub boost_pids: PidSet,
}

impl Suspensions {
    pub open spec fn wf(&self) -> bool {
        self.suspended.wf() && self.boost_pids.wf()
    }

    /// Nothing suspended, boost mode off.
    pub fn new() -> (s: Self)
        ensures
            s.wf(),
            !s.boost_active,
            s.suspended.view() == Set::<u32>::empty(),
            s.boost_pids.view() == Set::<u32>::empty(),
    {
        Suspensions { suspended: PidSet::new(), boost_active: false, boost_pids: PidSet::new() }
    }

    /// Records a successful suspension.
    pub fn note_suspended(&mut self, pid: u32)
        requires
            old(self).wf(),
        ensures
            final(self).wf(),
            final(self).suspended.view() == old(self).suspended.view().insert(pid),
            final(self).boost_active == old(self).boost_active,
            final(self).boost_pids == old(self).boost_pids,
    {
        self.suspended.insert(pid);
    }

    /// Records a successful resumption.
    pub fn note_resumed(&mut self, pid: u32)
        requires
            old(self).wf(),
        ensures
            final(self).wf(),
            final(self).suspended.view() == old(self).suspended.view().remove(pid),
            final(self).boost_active == old(self).boost_active,
            final(self).boost_pids == old(self).boost_pids,
    {
        self.suspended.remove(pid);
    }

    /// Starts boost mode with the pids it managed to suspend; gives how many.
    pub fn start_boost(&mut self, suspended_now: &Vec<u32>) -> (count: usize)
        requires
            old(self).wf(),
        ensures
            final(self).wf(),
            final(self).boost_active,
            final(self).boost_pids.view() == suspended_now@.to_set(),
            final(self).suspended.view() == old(self).suspended.view().union(suspended_now@.to_set()),
            count == final(self).boost_pids.view().len(),
    {
        self.boost_active = true;
        self.boost_pids = PidSet::from_pids(suspended_now);
        let mut i: usize = 0;
        while i < suspended_now.len()
            invariant
                i <= suspended_now.len(),
                self.suspended.wf(),
                self.boost_pids.wf(),
                self.boost_active,
                self.boost_pids.view() == suspended_now@.to_set(),
                self.suspended.view() == old(self).suspended.view().union(suspended_now@.take(i as int).to_set()),
            decreases suspended_now.len() - i,
        {
            self.suspended.insert(suspended_now[i]);
            assert(suspended_now@.take(i + 1) == suspended_now@.take(i as int).push(suspended_now@[i as int]));
            assert(self.suspended.view() =~= old(self).suspended.view().union(suspended_now@.take(i + 1).to_set()));
            i = i + 1;
        }
        assert(suspended_now@.take(suspended_now.len() as int) =~= suspended_now@);
        self.boost_pids.len()
    }

    /// Ends boost mode: gives the pids it suspended, which are to be resumed,
    /// and forgets them.
    pub fn end_boost(&mut self) -> (to_resume: Vec<u32>)
        requires
            old(self).wf(),
        ensures
            final(self).wf(),
            !final(self).boost_active,
            to_resume@.to_set() == old(self).boost_pids.view(),
            to_resume@.no_duplicates(),
            final(self).suspended.view() == old(self).suspended.view().difference(old(self).boost_pids.view()),
            final(self).boost_pids.view() == Set::<u32>::empty(),
    {
        self.boost_active = false;
        let pids = self.boost_pids.to_vec();
        let mut i: usize = 0;
        while i < pids.len()
            invariant
                i <= pids.len(),
                self.suspended.wf(),
                self.boost_pids.wf(),
                !self.boost_active,
                pids@.to_set() == old(self).boost_pids.view(),
                pids@.no_duplicates(),
                self.suspended.view() == old(self).suspended.view().difference(pids@.take(i as int).to_set()),
            decreases pids.len() - i,
        {
            self.suspended.remove(pids[i]);
            assert(pids@.take(i + 1) == pids@.take(i as int).push(pids@[i as int]));
            assert(self.suspended.view() =~= old(self).suspended.view().difference(pids@.take(i + 1).to_set()));
            i = i + 1;
        }
        assert(pids@.take(pids.len() as int) =~= pids@);
        self.boost_pids.clear();
        pids
    }
}

/// After boost mode ends, none of the processes it suspended is still marked
/// as suspended, and whatever the user suspended by hand stays marked.
pub proof fn lemma_boost_end_releases(suspended: Set<u32>, boost: Set<u32>, pid: u32)
    ensures
        boost.contains(pid) ==> !suspended.difference(boost).contains(pid),
        !boost.contains(pid) ==> (suspended.difference(boost).contains(pid) == suspended.contains(pid)),
{
}

/// With the comparison on, the table marks exactly the processes that were
/// not shown when the snapshot was taken.
pub proof fn lemma_snapshot_marks_new(s: Snapshot, shown: Seq<u32>, pid: u32)
    requires
        s.diff_mode,
        s.pids.view() == shown.to_set(),
    ensures
        (s.diff_mode && !s.pids.view().contains(pid)) <==> !shown.contains(pid),
{
}

/// Starting and then ending boost mode gives back the processes the user had
/// suspended, as long as boost mode suspended none of them itself.
pub proof fn lemma_boost_round_trip(user: Set<u32>, boosted: Set<u32>)
    requires
        user.disjoint(boosted),
    ensures
        user.union(boosted).difference(boosted) == user,
{
    assert(user.union(boosted).difference(boosted) =~= user);
}

} // verus!
