use vstd::prelude::*;

verus! {

/// The pages of the main window.
#[derive(Debug, Clone, Copy, PartialEq, Eq, Structural)]
pub enum Tab {
    Overview,
    Cpu,
    Ram,
    Processes,
    Disks,
    Network,
    SystemInfo,
    Settings,
}

/// The sub-pages of the process page.
#[derive(Debug, Clone, Copy, PartialEq, Eq, Structural)]
pub enum ProcessesSubTab {
    Processes,
    Startup,
    Details,
    Anomalies,
}

/// The column the process table is sorted by.
#[derive(Debug, Clone, Copy, PartialEq, Eq, Structural)]
pub enum SortKey {
    Pid,
    Name,
    Cpu,
    Memory,
    Disk,
    Age,
}

/// The sort after a click on a column header: the same column flips the
/// direction; another column becomes the key, descending.
pub open spec fn sort_after_click(current: SortKey, ascending: bool, clicked: SortKey) -> (SortKey, bool) {
    if current == clicked {
        (current, !ascending)
    } else {
        (clicked, false)
    }
}

/// Applies a click on the header of column `clicked`.
pub fn click_sort_column(current: SortKey, ascending: bool, clicked: SortKey) -> (next: (SortKey, bool))
    ensures
        next == sort_after_click(current, ascending, clicked),
{
    if current == clicked {
        (current, !ascending)
    } else {
        (clicked, false)
    }
}

/// Clicking the same column twice restores the direction it started with.
pub proof fn lemma_double_click_restores(current: SortKey, ascending: bool, clicked: SortKey)
    ensures
        ({
            let once = sort_after_click(current, ascending, clicked);
            let twice = sort_after_click(once.0, once.1, clicked);
            twice.0 == clicked && (current == clicked ==> twice.1 == ascending) && (current != clicked ==> twice.1 == true)
        }),
{
}

/// Where `x` first occurs in `s`, if it does.
pub open spec fn first_index(s: Seq<u32>, x: u32) -> Option<int>
    decreases s.len(),
{
    if s.len() == 0 {
        None
    } else if s[0] == x {
        Some(0)
    } else {
        match first_index(s.drop_first(), x) {
            Some(i) => Some(i + 1),
            None => None,
        }
    }
}

/// What `first_index` finds.
pub proof fn lemma_first_index(s: Seq<u32>, x: u32)
    ensures
        first_index(s, x) matches Some(i) ==> 0 <= i < s.len() && s[i] == x && forall|j: int| 0 <= j < i ==> s[j] != x,
        first_index(s, x) is None ==> forall|j: int| 0 <= j < s.len() ==> s[j] != x,
    decreases s.len(),
{
    if s.len() > 0 && s[0] != x {
        lemma_first_index(s.drop_first(), x);
        assert forall|j: int| 1 <= j < s.len() implies s[j] == s.drop_first()[j - 1] by {}
    }
}

/// The selection after the "next" key in a list of pids: the first row when
/// nothing (or a row no longer listed) is selected, otherwise the row below,
/// staying on the last row. An empty list leaves the selection alone.
pub open spec fn next_selection(pids: Seq<u32>, selected: Option<u32>) -> Option<u32> {
    if pids.len() == 0 {
        selected
    } else {
        match selected {
            None => Some(pids[0]),
            Some(cur) => match first_index(pids, cur) {
                Some(i) => Some(pids[if i + 1 < pids.len() { i + 1 } else { pids.len() - 1 }]),
                None => Some(pids[0]),
            },
        }
    }
}

/// The selection after the "previous" key: the last row when nothing (or a
/// row no longer listed) is selected, otherwise the row above, staying on the
/// first row. An empty list leaves the selection alone.
pub open spec fn previous_selection(pids: Seq<u32>, selected: Option<u32>) -> Option<u32> {
    if pids.len() == 0 {
        selected
    } else {
        match selected {
            None => Some(pids[pids.len() - 1]),
            Some(cur) => match first_index(pids, cur) {
                Some(i) => Some(pids[if i > 0 { i - 1 } else { 0 }]),
                None => Some(pids[pids.len() - 1]),
            },
        }
    }
}

proof fn lemma_first_index_found(s: Seq<u32>, x: u32, i: int)
    requires
        0 <= i < s.len(),
        s[i] == x,
        forall|j: int| 0 <= j < i ==> s[j] != x,
    ensures
        first_index(s, x) == Some(i),
{
    lemma_first_index(s, x);
    match first_index(s, x) {
        Some(k) => {
            if k < i {
                assert(s[k] != x);
            } else if k > i {
                assert(s[i] != x);
            }
        },
        None => {
            assert(s[i] != x);
        },
    }
}

/// Finds where `x` first occurs in `pids`.
fn position_of(pids: &Vec<u32>, x: u32) -> (r: Option<usize>)
    ensures
        r matches Some(i) ==> first_index(pids@, x) == Some(i as int) && i < pids.len(),
        r is None ==> first_index(pids@, x) is None,
{
    let mut i: usize = 0;
    while i < pids.len()
        invariant
            i <= pids.len(),
            forall|j: int| 0 <= j < i ==> pids@[j] != x,
        decreases pids.len() - i,
    {
        if pids[i] == x {
            proof {
                lemma_first_index_found(pids@, x, i as int);
            }
            return Some(i);
        }
        i = i + 1;
    }
    proof {
        lemma_first_index(pids@, x);
        if first_index(pids@, x) is Some {
            let k = first_index(pids@, x)->0;
            assert(pids@[k] == x);
        }
    }
    None
}

/// Moves the selection one row down in `pids` (the rows shown, in order).
pub fn select_next(pids: &Vec<u32>, selected: Option<u32>) -> (next: Option<u32>)
    ensures
        next == next_selection(pids@, selected),
{
    if pids.len() == 0 {
        return selected;
    }
    match selected {
        None => Some(pids[0]),
        Some(cur) => match position_of(pids, cur) {
            Some(i) => {
                let j = if i + 1 < pids.len() { i + 1 } else { pids.len() - 1 };
                Some(pids[j])
            },
            None => Some(pids[0]),
        },
    }
}

/// Moves the selection one row up in `pids` (the rows shown, in order).
pub fn select_previous(pids: &Vec<u32>, selected: Option<u32>) -> (prev: Option<u32>)
    ensures
        prev == previous_selection(pids@, selected),
{
    if pids.len() == 0 {
        return selected;
    }
    match selected {
        None => Some(pids[pids.len() - 1]),
        Some(cur) => match position_of(pids, cur) {
            Some(i) => {
                let j = if i > 0 { i - 1 } else { 0 };
                Some(pids[j])
            },
            None => Some(pids[pids.len() - 1]),
        },
    }
}

/// Moving the selection down keeps it on a listed row whenever there are rows,
/// and a selection on the last row (listed only there) stays put.
pub proof fn lemma_next_stays_listed(pids: Seq<u32>, selected: Option<u32>)
    requires
        pids.len() > 0,
    ensures
        next_selection(pids, selected) is Some,
        pids.contains(next_selection(pids, selected)->0),
        first_index(pids, pids.last()) == Some(pids.len() - 1) && selected == Some(pids.last())
            ==> next_selection(pids, selected) == selected,
{
    let n = next_selection(pids, selected)->0;
    if let Some(cur) = selected {
        if let Some(i) = first_index(pids, cur) {
            let a = if i + 1 < pids.len() { i + 1 } else { pids.len() - 1 };
            lemma_first_index(pids, cur);
            assert(pids[a] == n);
        } else {
            assert(pids[0] == n);
        }
    } else {
        assert(pids[0] == n);
    }
}

/// Moving the selection up keeps it on a listed row whenever there are rows,
/// and a selection on the first row stays put.
pub proof fn lemma_previous_stays_listed(pids: Seq<u32>, selected: Option<u32>)
    requires
        pids.len() > 0,
    ensures
        previous_selection(pids, selected) is Some,
        pids.contains(previous_selection(pids, selected)->0),
        selected == Some(pids[0]) ==> previous_selection(pids, selected) == selected,
{
    let p = previous_selection(pids, selected)->0;
    if let Some(cur) = selected {
        if cur == pids[0] {
            lemma_first_index_found(pids, cur, 0);
        }
        if let Some(i) = first_index(pids, cur) {
            let b = if i > 0 { i - 1 } else { 0 };
            lemma_first_index(pids, cur);
            assert(pids[b] == p);
        } else {
            assert(pids[pids.len() - 1] == p);
        }
    } else {
        assert(pids[pids.len() - 1] == p);
    }
}

/// Samples kept in the CPU and memory charts.
pub const HISTORY_LEN: usize = 60;

/// A chart history after one more sample: the oldest sample goes once the
/// history holds `cap` of them.
pub open spec fn rolled<T>(h: Seq<T>, x: T, cap: nat) -> Seq<T> {
    if h.len() >= cap {
        h.drop_first().push(x)
    } else {
        h.push(x)
    }
}

/// Appends a sample to a chart history that keeps at most `cap` samples.
pub fn push_rolling<T>(history: &mut Vec<T>, x: T, cap: usize)
    requires
        cap > 0,
    ensures
        final(history)@ == rolled(old(history)@, x, cap as nat),
{
    if history.len() >= cap {
        history.remove(0);
    }
    history.push(x);
    assert(history@ =~= rolled(old(history)@, x, cap as nat));
}

/// A chart history never outgrows its cap, and its newest sample is the one
/// just added.
pub proof fn lemma_rolling_bounded<T>(h: Seq<T>, x: T, cap: nat)
    requires
        cap > 0,
        h.len() <= cap,
    ensures
        rolled(h, x, cap).len() <= cap,
        rolled(h, x, cap).last() == x,
        h.len() == cap ==> rolled(h, x, cap).len() == cap,
{
}

/// The samples of one chart (CPU or memory use), oldest first: never more
/// than `HISTORY_LEN` of them.
pub struct ChartHistory<T> {
    samples: Vec<T>,
}

impl<T> View for ChartHistory<T> {
    type V = Seq<T>;

    closed spec fn view(&self) -> Seq<T> {
        self.samples@
    }
}

impl<T> ChartHistory<T> {
    #[verifier::type_invariant]
    spec fn bounded(self) -> bool {
        self.samples@.len() <= HISTORY_LEN
    }

    /// The samples, oldest first; whatever events the chart went through,
    /// there are at most `HISTORY_LEN` of them.
    pub fn samples(&self) -> (s: &Vec<T>)
        ensures
            s@ == self@,
            s@.len() <= HISTORY_LEN,
    {
        proof {
            use_type_invariant(self);
        }
        &self.samples
    }

    /// How many samples the chart holds: never more than `HISTORY_LEN`.
    pub fn len(&self) -> (n: usize)
        ensures
            n == self@.len(),
            n <= HISTORY_LEN,
    {
        proof {
            use_type_invariant(self);
        }
        self.samples.len()
    }

    /// Appends a sample, dropping the oldest once the chart holds
    /// `HISTORY_LEN` of them; a full chart stays full.
    pub fn push(&mut self, x: T)
        ensures
            final(self)@ == rolled(old(self)@, x, HISTORY_LEN as nat),
            old(self)@.len() == HISTORY_LEN ==> final(self)@.len() == HISTORY_LEN,
    {
        proof {
            use_type_invariant(&*self);
        }
        let mut samples: Vec<T> = Vec::new();
        std::mem::swap(&mut samples, &mut self.samples);
        push_rolling(&mut samples, x, HISTORY_LEN);
        proof {
            lemma_rolling_bounded(old(self)@, x, HISTORY_LEN as nat);
        }
        self.samples = samples;
    }
}

impl<T: Copy> ChartHistory<T> {
    /// A full chart of `HISTORY_LEN` samples, all `fill`, as the window starts.
    pub fn filled(fill: T) -> (h: Self)
        ensures
            h@ == Seq::new(HISTORY_LEN as nat, |i: int| fill),
    {
        let mut samples: Vec<T> = Vec::new();
        let mut i: usize = 0;
        while i < HISTORY_LEN
            invariant
                i <= HISTORY_LEN,
                samples@ == Seq::new(i as nat, |j: int| fill),
            decreases HISTORY_LEN - i,
        {
            samples.push(fill);
            i = i + 1;
            assert(samples@ =~= Seq::new(i as nat, |j: int| fill));
        }
        ChartHistory { samples }
    }
}

} // verus!
