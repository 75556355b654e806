use vstd::prelude::*;
use crate::leak::{leak_set, next_histories, LeakTracker};
use crate::messages::{
    boost_failure, boost_failure_text, boost_status, boost_text, error_status, error_text, search_url,
    search_url_text, startup_removed, startup_removed_text, suspension_changed, suspension_text, terminated,
    terminated_text, tree_terminated, tree_terminated_text,
};
use crate::system::ProcessItem;
use crate::table::{filter_and_sort, is_table};
use crate::tracking::{Snapshot, Suspensions};
use crate::ui::{
    click_sort_column, next_selection, previous_selection, select_next, select_previous, sort_after_click,
    ProcessesSubTab, SortKey, Tab,
};

verus! {

/// Which page is on screen.
#[derive(Debug, Clone, Copy, PartialEq, Eq, Structural)]
pub struct Page {
    pub tab: Tab,
    pub subtab: ProcessesSubTab,
    /// Whether the sidebar lists the sub-pages of the process page.
    pub processes_expanded: bool,
    /// Whether the details of the selected process are shown over the page.
    pub show_process_info: bool,
}

/// The process table: the latest list of processes, how it is searched and
/// sorted, and the rows it shows (positions in `processes`).
pub struct ProcessTable {
    pub processes: Vec<ProcessItem>,
    pub query: String,
    pub sort_key: SortKey,
    pub ascending: bool,
    pub shown: Vec<usize>,
}

/// The pids of the rows a table shows, in order.
pub open spec fn shown_pids_of(t: ProcessTable) -> Seq<u32> {
    Seq::new(t.shown@.len(), |a: int| t.processes@[t.shown@[a] as int].pid)
}

/// The pids of all the processes a table holds, in order.
pub open spec fn process_pids_of(t: ProcessTable) -> Seq<u32> {
    t.processes@.map_values(|p: ProcessItem| p.pid)
}

/// `t` is the table of `processes` under `query`, `key` and `ascending`,
/// with the rows it shows computed afresh.
pub open spec fn table_of(t: ProcessTable, processes: Vec<ProcessItem>, query: String, key: SortKey, ascending: bool) -> bool {
    &&& t.processes == processes
    &&& t.query == query
    &&& t.sort_key == key
    &&& t.ascending == ascending
    &&& t.wf()
}

impl ProcessTable {
    /// The rows shown are those of the table at some moment (the age column
    /// reads the clock).
    pub open spec fn wf(&self) -> bool {
        exists|now: u64| is_table(self.processes@, self.query@, self.sort_key, self.ascending, now, self.shown@)
    }

    /// An empty table, sorted by CPU, busiest first.
    pub fn new() -> (t: Self)
        ensures
            t.wf(),
            t.processes@.len() == 0,
            t.query@.len() == 0,
            t.sort_key == SortKey::Cpu,
            !t.ascending,
            t.shown@.len() == 0,
    {
        let t = ProcessTable {
            processes: Vec::new(),
            query: String::new(),
            sort_key: SortKey::Cpu,
            ascending: false,
            shown: Vec::new(),
        };
        assert(is_table(t.processes@, t.query@, t.sort_key, t.ascending, 0, t.shown@));
        t
    }

    /// Computes the rows shown afresh.
    fn refilter(&mut self)
        ensures
            table_of(*final(self), old(self).processes, old(self).query, old(self).sort_key, old(self).ascending),
    {
        let shown = filter_and_sort(&self.processes, self.query.as_str(), self.sort_key, self.ascending);
        let ghost now = choose|now: u64| is_table(self.processes@, self.query@, self.sort_key, self.ascending, now, shown@);
        self.shown = shown;
        assert(is_table(self.processes@, self.query@, self.sort_key, self.ascending, now, self.shown@));
    }

    /// The pids of all the processes, in order.
    pub fn process_pids(&self) -> (pids: Vec<u32>)
        ensures
            pids@ == process_pids_of(*self),
    {
        let mut pids: Vec<u32> = Vec::new();
        let mut i: usize = 0;
        while i < self.processes.len()
            invariant
                i <= self.processes.len(),
                pids@ == process_pids_of(*self).take(i as int),
            decreases self.processes.len() - i,
        {
            pids.push(self.processes[i].pid);
            i = i + 1;
            assert(pids@ =~= process_pids_of(*self).take(i as int));
        }
        assert(pids@ =~= process_pids_of(*self));
        pids
    }

    /// The pids of the rows shown, in order.
    pub fn shown_pids(&self) -> (pids: Vec<u32>)
        requires
            self.wf(),
        ensures
            pids@ == shown_pids_of(*self),
    {
        let mut pids: Vec<u32> = Vec::new();
        let mut a: usize = 0;
        while a < self.shown.len()
            invariant
                self.wf(),
                a <= self.shown.len(),
                pids@ == shown_pids_of(*self).take(a as int),
            decreases self.shown.len() - a,
        {
            let i = self.shown[a];
            assert(i < self.processes.len()) by {
                let now = choose|now: u64| is_table(self.processes@, self.query@, self.sort_key, self.ascending, now, self.shown@);
                assert(self.shown@[a as int] < self.processes@.len());
            }
            pids.push(self.processes[i].pid);
            a = a + 1;
            assert(pids@ =~= shown_pids_of(*self).take(a as int));
        }
        assert(pids@ =~= shown_pids_of(*self));
        pids
    }
}

/// What the window remembers between events: the page on screen, the
/// process table, the selections, the status line, and the bookkeeping of
/// snapshots, suspensions and memory leaks.
pub struct Session {
    pub page: Page,
    pub table: ProcessTable,
    pub selected_pid: Option<u32>,
    pub selected_startup: Option<usize>,
    pub status: Option<String>,
    /// Whether the first reading of the processes is still awaited.
    pub loading: bool,
    pub snapshot: Snapshot,
    pub suspensions: Suspensions,
    pub leaks: LeakTracker,
}

/// Something that happened: a click or key press, a timer, or the outcome of
/// work the session asked for.
#[derive(Debug, Clone)]
pub enum Event {
    /// The timer for CPU and memory readings.
    TickFast,
    /// The timer for processes, disks, networks and the system overview.
    TickSlow,
    LoadProcessesNow,
    /// The timer that redraws the loading screen.
    AnimationTick,
    /// A full reading of the processes arrived.
    ProcessesLoaded(Vec<ProcessItem>),
    /// A reading of the processes alone arrived; an empty one asks for one.
    ProcessesRefreshed(Vec<ProcessItem>),
    TabSelected(Tab),
    ToggleProcessesExpanded,
    SearchQueryChanged(String),
    SortBy(SortKey),
    ToggleSortOrder,
    SelectProcess(Option<u32>),
    SelectNextProcess,
    SelectPreviousProcess,
    ProcessesSubTabSelected(ProcessesSubTab),
    SelectStartupItem(Option<usize>),
    OpenStartupLocation(String),
    RemoveStartupItem(usize),
    /// The startup program of this name was removed.
    StartupItemRemoved(String),
    StartupRemovalFailed(String),
    KillProcess(u32),
    KillProcessTree(u32),
    ProcessKilled(u32),
    /// The tree of this process was terminated, this many processes of it.
    ProcessTreeKilled(u32, usize),
    KillFailed(String),
    SuspendProcess(u32),
    ResumeProcess(u32),
    ProcessSuspended(u32),
    ProcessResumed(u32),
    SuspensionFailed(String),
    SearchProcessOnline(String),
    OpenProcessInfo(u32),
    CloseProcessInfo,
    TakeSnapshot,
    ClearSnapshot,
    ToggleDiffMode,
    ToggleBoostMode,
    /// Boost mode suspended these processes.
    BoostStarted(Vec<u32>),
    BoostFailed(String),
    /// Boost mode ended, and this many of its processes were resumed.
    BoostEnded(usize),
}

/// The work a session asks for after an event; its outcome comes back as
/// another event.
#[derive(Debug, Clone)]
pub enum Action {
    Nothing,
    /// Read the CPU and memory.
    RefreshFast,
    /// Read the processes, disks, networks and system overview.
    RefreshAll,
    /// Read the processes alone.
    RefreshProcesses,
    /// Read the processes again after some were terminated.
    ReloadProcesses,
    Kill(u32),
    KillTree(u32),
    Suspend(u32),
    Resume(u32),
    /// Suspend the usual resource hogs (boost mode).
    SuspendHogs,
    /// Resume these processes (the end of boost mode).
    ResumeAll(Vec<u32>),
    FetchStartupItems,
    RemoveStartupItem(usize),
    OpenLocation(String),
    OpenUrl(String),
}

/// `s` with another page on screen.
pub open spec fn with_page(s: Session, page: Page) -> Session {
    Session { page, ..s }
}

/// `s` with another process table.
pub open spec fn with_table(s: Session, table: ProcessTable) -> Session {
    Session { table, ..s }
}

/// `s` with another process selected.
pub open spec fn with_selected(s: Session, selected_pid: Option<u32>) -> Session {
    Session { selected_pid, ..s }
}

/// `s` with another startup program selected.
pub open spec fn with_startup(s: Session, selected_startup: Option<usize>) -> Session {
    Session { selected_startup, ..s }
}

/// `s` with another status line.
pub open spec fn with_status(s: Session, status: Option<String>) -> Session {
    Session { status, ..s }
}

/// `s` with the loading flag set to `loading`.
pub open spec fn with_loading(s: Session, loading: bool) -> Session {
    Session { loading, ..s }
}

/// `s` with another snapshot.
pub open spec fn with_snapshot(s: Session, snapshot: Snapshot) -> Session {
    Session { snapshot, ..s }
}

/// `s` with other suspensions.
pub open spec fn with_suspensions(s: Session, suspensions: Suspensions) -> Session {
    Session { suspensions, ..s }
}

/// `s` with another leak tracker.
pub open spec fn with_leaks(s: Session, leaks: LeakTracker) -> Session {
    Session { leaks, ..s }
}

/// The page with the process details closed.
pub open spec fn info_closed(p: Page) -> Page {
    Page { show_process_info: false, ..p }
}

/// The status line of `t` reads `text`.
pub open spec fn status_reads(t: Session, text: Seq<char>) -> bool {
    t.status matches Some(m) && m@ == text
}

/// The (pid, memory) readings of a list of processes.
pub open spec fn memory_samples(procs: Seq<ProcessItem>) -> Seq<(u32, u64)> {
    procs.map_values(|p: ProcessItem| (p.pid, p.memory_bytes))
}

/// How the session `s` answers event `e`: `t` is the session afterwards and
/// `a` the work it asks for.
pub open spec fn steps_to(s: Session, e: Event, t: Session, a: Action) -> bool {
    match e {
        Event::TickFast => t == s && a == Action::RefreshFast,
        Event::TickSlow => t == s && a == Action::RefreshAll,
        Event::LoadProcessesNow => t == s && a == Action::RefreshAll,
        Event::AnimationTick => t == s && a == Action::Nothing,
        Event::ProcessesLoaded(procs) => {
            &&& t == with_leaks(with_table(with_loading(s, false), t.table), t.leaks)
            &&& table_of(t.table, procs, s.table.query, s.table.sort_key, s.table.ascending)
            &&& t.leaks.histories() == next_histories(s.leaks.histories(), memory_samples(procs@))
            &&& t.leaks.leaks() == leak_set(t.leaks.histories())
            &&& a == Action::Nothing
        },
        Event::ProcessesRefreshed(procs) => if procs@.len() == 0 {
            t == s && a == Action::RefreshProcesses
        } else {
            &&& t == with_table(with_loading(s, false), t.table)
            &&& table_of(t.table, procs, s.table.query, s.table.sort_key, s.table.ascending)
            &&& a == Action::Nothing
        },
        Event::TabSelected(tab) => {
            &&& t == with_page(s, Page {
                tab,
                subtab: s.page.subtab,
                processes_expanded: tab == Tab::Processes || s.page.processes_expanded,
                show_process_info: false,
            })
            &&& a == if tab == Tab::Processes { Action::RefreshAll } else { Action::Nothing }
        },
        Event::ToggleProcessesExpanded => {
            &&& t == with_page(s, Page {
                tab: Tab::Processes,
                subtab: s.page.subtab,
                processes_expanded: !s.page.processes_expanded,
                show_process_info: false,
            })
            &&& a == Action::Nothing
        },
        Event::SearchQueryChanged(q) => {
            &&& t == with_table(s, t.table)
            &&& table_of(t.table, s.table.processes, q, s.table.sort_key, s.table.ascending)
            &&& a == Action::Nothing
        },
        Event::SortBy(key) => {
            let (k, asc) = sort_after_click(s.table.sort_key, s.table.ascending, key);
            &&& t == with_table(s, t.table)
            &&& table_of(t.table, s.table.processes, s.table.query, k, asc)
            &&& a == Action::Nothing
        },
        Event::ToggleSortOrder => {
            &&& t == with_table(s, t.table)
            &&& table_of(t.table, s.table.processes, s.table.query, s.table.sort_key, !s.table.ascending)
            &&& a == Action::Nothing
        },
        Event::SelectProcess(pid) => {
            &&& t == with_loading(with_status(with_selected(with_page(s, info_closed(s.page)), pid), None), false)
            &&& a == Action::Nothing
        },
        Event::SelectNextProcess => {
            &&& t == with_selected(s, next_selection(shown_pids_of(s.table), s.selected_pid))
            &&& a == Action::Nothing
        },
        Event::SelectPreviousProcess => {
            &&& t == with_selected(s, previous_selection(shown_pids_of(s.table), s.selected_pid))
            &&& a == Action::Nothing
        },
        Event::ProcessesSubTabSelected(sub) => {
            &&& t == with_page(s, Page {
                tab: Tab::Processes,
                subtab: sub,
                processes_expanded: s.page.processes_expanded,
                show_process_info: false,
            })
            &&& a == if sub == ProcessesSubTab::Startup { Action::FetchStartupItems } else { Action::Nothing }
        },
        Event::SelectStartupItem(idx) => t == with_startup(s, idx) && a == Action::Nothing,
        Event::OpenStartupLocation(cmd) => t == s && a == Action::OpenLocation(cmd),
        Event::RemoveStartupItem(idx) => t == s && a == Action::RemoveStartupItem(idx),
        Event::StartupItemRemoved(name) => {
            &&& t == with_startup(with_status(s, t.status), None)
            &&& status_reads(t, startup_removed_text(name@))
            &&& a == Action::FetchStartupItems
        },
        Event::StartupRemovalFailed(err) => t == with_status(s, Some(err)) && a == Action::Nothing,
        Event::KillProcess(pid) => t == with_page(s, info_closed(s.page)) && a == Action::Kill(pid),
        Event::KillProcessTree(pid) => t == with_page(s, info_closed(s.page)) && a == Action::KillTree(pid),
        Event::ProcessKilled(pid) => {
            &&& t == with_selected(with_status(s, t.status), None)
            &&& status_reads(t, terminated_text(pid))
            &&& a == Action::ReloadProcesses
        },
        Event::ProcessTreeKilled(pid, count) => {
            &&& t == with_selected(with_status(s, t.status), None)
            &&& status_reads(t, tree_terminated_text(pid, count))
            &&& a == Action::ReloadProcesses
        },
        Event::KillFailed(err) => t == with_loading(with_status(s, Some(err)), false) && a == Action::Nothing,
        Event::SuspendProcess(pid) => t == s && a == Action::Suspend(pid),
        Event::ResumeProcess(pid) => t == s && a == Action::Resume(pid),
        Event::ProcessSuspended(pid) => {
            &&& t == with_status(with_suspensions(s, t.suspensions), t.status)
            &&& t.suspensions.suspended.view() == s.suspensions.suspended.view().insert(pid)
            &&& t.suspensions.boost_active == s.suspensions.boost_active
            &&& t.suspensions.boost_pids == s.suspensions.boost_pids
            &&& status_reads(t, suspension_text(pid, true))
            &&& a == Action::Nothing
        },
        Event::ProcessResumed(pid) => {
            &&& t == with_status(with_suspensions(s, t.suspensions), t.status)
            &&& t.suspensions.suspended.view() == s.suspensions.suspended.view().remove(pid)
            &&& t.suspensions.boost_active == s.suspensions.boost_active
            &&& t.suspensions.boost_pids == s.suspensions.boost_pids
            &&& status_reads(t, suspension_text(pid, false))
            &&& a == Action::Nothing
        },
        Event::SuspensionFailed(err) => {
            &&& t == with_status(s, t.status)
            &&& status_reads(t, error_text(err@))
            &&& a == Action::Nothing
        },
        Event::SearchProcessOnline(name) => t == s && (a matches Action::OpenUrl(u) && u@ == search_url_text(name@)),
        Event::OpenProcessInfo(pid) => {
            &&& t == with_selected(with_page(s, Page { show_process_info: true, ..s.page }), Some(pid))
            &&& a == Action::Nothing
        },
        Event::CloseProcessInfo => t == with_page(s, info_closed(s.page)) && a == Action::Nothing,
        Event::TakeSnapshot => {
            &&& t == with_snapshot(s, t.snapshot)
            &&& t.snapshot.taken
            &&& !t.snapshot.diff_mode
            &&& t.snapshot.pids.view() == process_pids_of(s.table).to_set()
            &&& a == Action::Nothing
        },
        Event::ClearSnapshot => {
            &&& t == with_snapshot(s, t.snapshot)
            &&& !t.snapshot.taken
            &&& !t.snapshot.diff_mode
            &&& t.snapshot.pids.view() == Set::<u32>::empty()
            &&& a == Action::Nothing
        },
        Event::ToggleDiffMode => {
            &&& t == with_snapshot(s, Snapshot { diff_mode: !s.snapshot.diff_mode, ..s.snapshot })
            &&& a == Action::Nothing
        },
        Event::ToggleBoostMode => if s.suspensions.boost_active {
            &&& t == with_suspensions(s, t.suspensions)
            &&& !t.suspensions.boost_active
            &&& t.suspensions.suspended.view() == s.suspensions.suspended.view().difference(s.suspensions.boost_pids.view())
            &&& t.suspensions.boost_pids.view() == Set::<u32>::empty()
            &&& a matches Action::ResumeAll(v) && v@.to_set() == s.suspensions.boost_pids.view() && v@.no_duplicates()
        } else {
            t == s && a == Action::SuspendHogs
        },
        Event::BoostStarted(pids) => {
            &&& t == with_status(with_suspensions(s, t.suspensions), t.status)
            &&& t.suspensions.boost_active
            &&& t.suspensions.boost_pids.view() == pids@.to_set()
            &&& t.suspensions.suspended.view() == s.suspensions.suspended.view().union(pids@.to_set())
            &&& status_reads(t, boost_text(true, t.suspensions.boost_pids.view().len() as usize))
            &&& a == Action::RefreshAll
        },
        Event::BoostFailed(err) => {
            &&& t == with_status(s, t.status)
            &&& status_reads(t, boost_failure_text(err@))
            &&& a == Action::RefreshAll
        },
        Event::BoostEnded(count) => {
            &&& t == with_status(s, t.status)
            &&& status_reads(t, boost_text(false, count))
            &&& a == Action::RefreshAll
        },
    }
}

impl Session {
    /// The parts of the session that hold invariants of their own.
    pub open spec fn wf(&self) -> bool {
        &&& self.table.wf()
        &&& self.snapshot.wf()
        &&& self.suspensions.wf()
        &&& self.leaks.wf()
    }

    /// The session at start-up: the overview page, the process page's
    /// sub-pages listed, an empty table sorted by CPU (busiest first), no
    /// selection, no status, no snapshot, nothing suspended, and the first
    /// reading awaited.
    pub fn new() -> (s: Self)
        ensures
            s.wf(),
            s.page == (Page {
                tab: Tab::Overview,
                subtab: ProcessesSubTab::Processes,
                processes_expanded: true,
                show_process_info: false,
            }),
            s.table.processes@.len() == 0,
            s.table.query@.len() == 0,
            s.table.sort_key == SortKey::Cpu,
            !s.table.ascending,
            s.table.shown@.len() == 0,
            s.selected_pid is None,
            s.selected_startup is None,
            s.status is None,
            s.loading,
            !s.snapshot.taken,
            !s.snapshot.diff_mode,
            s.snapshot.pids.view() == Set::<u32>::empty(),
            !s.suspensions.boost_active,
            s.suspensions.suspended.view() == Set::<u32>::empty(),
            s.suspensions.boost_pids.view() == Set::<u32>::empty(),
            s.leaks.histories() == Map::<u32, Seq<u64>>::empty(),
            s.leaks.leaks() == Set::<u32>::empty(),
    {
        Session {
            page: Page {
                tab: Tab::Overview,
                subtab: ProcessesSubTab::Processes,
                processes_expanded: true,
                show_process_info: false,
            },
            table: ProcessTable::new(),
            selected_pid: None,
            selected_startup: None,
            status: None,
            loading: true,
            snapshot: Snapshot::new(),
            suspensions: Suspensions::new(),
            leaks: LeakTracker::new(),
        }
    }

    /// Answers one event: updates the session and gives the work to do next.
    pub fn handle(&mut self, event: Event) -> (action: Action)
        requires
            old(self).wf(),
        ensures
            final(self).wf(),
            steps_to(*old(self), event, *final(self), action),
    {
        match event {
            Event::TickFast => Action::RefreshFast,
            Event::TickSlow => Action::RefreshAll,
            Event::LoadProcessesNow => Action::RefreshAll,
            Event::AnimationTick => Action::Nothing,
            Event::ProcessesLoaded(..)
            | Event::ProcessesRefreshed(..)
            | Event::SearchQueryChanged(..)
            | Event::SortBy(..)
            | Event::ToggleSortOrder => self.handle_readings(event),
            Event::TabSelected(..)
            | Event::ToggleProcessesExpanded
            | Event::ProcessesSubTabSelected(..)
            | Event::SelectProcess(..)
            | Event::SelectNextProcess
            | Event::SelectPreviousProcess
            | Event::OpenProcessInfo(..)
            | Event::CloseProcessInfo
            | Event::SelectStartupItem(..) => self.handle_navigation(event),
            Event::OpenStartupLocation(..)
            | Event::RemoveStartupItem(..)
            | Event::StartupItemRemoved(..)
            | Event::StartupRemovalFailed(..)
            | Event::KillProcess(..)
            | Event::KillProcessTree(..)
            | Event::ProcessKilled(..)
            | Event::ProcessTreeKilled(..)
            | Event::KillFailed(..)
            | Event::SuspendProcess(..)
            | Event::ResumeProcess(..)
            | Event::ProcessSuspended(..)
            | Event::ProcessResumed(..)
            | Event::SuspensionFailed(..)
            | Event::SearchProcessOnline(..) => self.handle_process_action(event),
            Event::TakeSnapshot
            | Event::ClearSnapshot
            | Event::ToggleDiffMode
            | Event::ToggleBoostMode
            | Event::BoostStarted(..)
            | Event::BoostFailed(..)
            | Event::BoostEnded(..) => self.handle_snapshot_or_boost(event),
        }
    }

    /// A new reading of the processes, or a change of search or sort: the table is computed afresh.
    fn handle_readings(&mut self, event: Event) -> (action: Action)
        requires
            old(self).wf(),
            event is ProcessesLoaded
                || event is ProcessesRefreshed
                || event is SearchQueryChanged
                || event is SortBy
                || event is ToggleSortOrder,
        ensures
            final(self).wf(),
            steps_to(*old(self), event, *final(self), action),
    {
        match event {
            Event::ProcessesLoaded(procs) => {
                let samples = memory_readings(&procs);
                self.leaks.update(&samples);
                self.table.processes = procs;
                self.table.refilter();
                self.loading = false;
                Action::Nothing
            },
            Event::ProcessesRefreshed(procs) => {
                if procs.len() == 0 {
                    Action::RefreshProcesses
                } else {
                    self.table.processes = procs;
                    self.table.refilter();
                    self.loading = false;
                    Action::Nothing
                }
            },
            Event::SearchQueryChanged(q) => {
                self.table.query = q;
                self.table.refilter();
                Action::Nothing
            },
            Event::SortBy(key) => {
                let (k, asc) = click_sort_column(self.table.sort_key, self.table.ascending, key);
                self.table.sort_key = k;
                self.table.ascending = asc;
                self.table.refilter();
                Action::Nothing
            },
            Event::ToggleSortOrder => {
                self.table.ascending = !self.table.ascending;
                self.table.refilter();
                Action::Nothing
            },
            _ => Action::Nothing,
        }
    }

    /// A move between pages or rows.
    fn handle_navigation(&mut self, event: Event) -> (action: Action)
        requires
            old(self).wf(),
            event is TabSelected
                || event is ToggleProcessesExpanded
                || event is ProcessesSubTabSelected
                || event is SelectProcess
                || event is SelectNextProcess
                || event is SelectPreviousProcess
                || event is OpenProcessInfo
                || event is CloseProcessInfo
                || event is SelectStartupItem,
        ensures
            final(self).wf(),
            steps_to(*old(self), event, *final(self), action),
    {
        match event {
            Event::TabSelected(tab) => {
                self.page.tab = tab;
                self.page.show_process_info = false;
                if tab == Tab::Processes {
                    self.page.processes_expanded = true;
                    Action::RefreshAll
                } else {
                    Action::Nothing
                }
            },
            Event::ToggleProcessesExpanded => {
                self.page.processes_expanded = !self.page.processes_expanded;
                self.page.tab = Tab::Processes;
                self.page.show_process_info = false;
                Action::Nothing
            },
            Event::ProcessesSubTabSelected(sub) => {
                self.page.tab = Tab::Processes;
                self.page.subtab = sub;
                self.page.show_process_info = false;
                if sub == ProcessesSubTab::Startup {
                    Action::FetchStartupItems
                } else {
                    Action::Nothing
                }
            },
            Event::SelectProcess(pid) => {
                self.selected_pid = pid;
                self.status = None;
                self.page.show_process_info = false;
                self.loading = false;
                Action::Nothing
            },
            Event::SelectNextProcess => {
                let pids = self.table.shown_pids();
                self.selected_pid = select_next(&pids, self.selected_pid);
                Action::Nothing
            },
            Event::SelectPreviousProcess => {
                let pids = self.table.shown_pids();
                self.selected_pid = select_previous(&pids, self.selected_pid);
                Action::Nothing
            },
            Event::OpenProcessInfo(pid) => {
                self.selected_pid = Some(pid);
                self.page.show_process_info = true;
                Action::Nothing
            },
            Event::CloseProcessInfo => {
                self.page.show_process_info = false;
                Action::Nothing
            },
            Event::SelectStartupItem(idx) => {
                self.selected_startup = idx;
                Action::Nothing
            },
            _ => Action::Nothing,
        }
    }

    /// A request to act on a process or startup program, or its outcome.
    fn handle_process_action(&mut self, event: Event) -> (action: Action)
        requires
            old(self).wf(),
            event is OpenStartupLocation
                || event is RemoveStartupItem
                || event is StartupItemRemoved
                || event is StartupRemovalFailed
                || event is KillProcess
                || event is KillProcessTree
                || event is ProcessKilled
                || event is ProcessTreeKilled
                || event is KillFailed
                || event is SuspendProcess
                || event is ResumeProcess
                || event is ProcessSuspended
                || event is ProcessResumed
                || event is SuspensionFailed
                || event is SearchProcessOnline,
        ensures
            final(self).wf(),
            steps_to(*old(self), event, *final(self), action),
    {
        match event {
            Event::OpenStartupLocation(cmd) => Action::OpenLocation(cmd),
            Event::RemoveStartupItem(idx) => Action::RemoveStartupItem(idx),
            Event::StartupItemRemoved(name) => {
                self.status = Some(startup_removed(name.as_str()));
                self.selected_startup = None;
                Action::FetchStartupItems
            },
            Event::StartupRemovalFailed(err) => {
                self.status = Some(err);
                Action::Nothing
            },
            Event::KillProcess(pid) => {
                self.page.show_process_info = false;
                Action::Kill(pid)
            },
            Event::KillProcessTree(pid) => {
                self.page.show_process_info = false;
                Action::KillTree(pid)
            },
            Event::ProcessKilled(pid) => {
                self.status = Some(terminated(pid));
                self.selected_pid = None;
                Action::ReloadProcesses
            },
            Event::ProcessTreeKilled(pid, count) => {
                self.status = Some(tree_terminated(pid, count));
                self.selected_pid = None;
                Action::ReloadProcesses
            },
            Event::KillFailed(err) => {
                self.status = Some(err);
                self.loading = false;
                Action::Nothing
            },
            Event::SuspendProcess(pid) => Action::Suspend(pid),
            Event::ResumeProcess(pid) => Action::Resume(pid),
            Event::ProcessSuspended(pid) => {
                self.suspensions.note_suspended(pid);
                self.status = Some(suspension_changed(pid, true));
                Action::Nothing
            },
            Event::ProcessResumed(pid) => {
                self.suspensions.note_resumed(pid);
                self.status = Some(suspension_changed(pid, false));
                Action::Nothing
            },
            Event::SuspensionFailed(err) => {
                self.status = Some(error_status(err.as_str()));
                Action::Nothing
            },
            Event::SearchProcessOnline(name) => Action::OpenUrl(search_url(name.as_str())),
            _ => Action::Nothing,
        }
    }

    /// A snapshot or boost-mode event.
    fn handle_snapshot_or_boost(&mut self, event: Event) -> (action: Action)
        requires
            old(self).wf(),
            event is TakeSnapshot
                || event is ClearSnapshot
                || event is ToggleDiffMode
                || event is ToggleBoostMode
                || event is BoostStarted
                || event is BoostFailed
                || event is BoostEnded,
        ensures
            final(self).wf(),
            steps_to(*old(self), event, *final(self), action),
    {
        match event {
            Event::TakeSnapshot => {
                let pids = self.table.process_pids();
                self.snapshot.take(&pids);
                Action::Nothing
            },
            Event::ClearSnapshot => {
                self.snapshot.clear();
                Action::Nothing
            },
            Event::ToggleDiffMode => {
                self.snapshot.toggle_diff();
                Action::Nothing
            },
            Event::ToggleBoostMode => {
                if self.suspensions.boost_active {
                    let to_resume = self.suspensions.end_boost();
                    Action::ResumeAll(to_resume)
                } else {
                    Action::SuspendHogs
                }
            },
            Event::BoostStarted(pids) => {
                let count = self.suspensions.start_boost(&pids);
                self.status = Some(boost_status(true, count));
                Action::RefreshAll
            },
            Event::BoostFailed(err) => {
                self.status = Some(boost_failure(err.as_str()));
                Action::RefreshAll
            },
            Event::BoostEnded(count) => {
                self.status = Some(boost_status(false, count));
                Action::RefreshAll
            },
            _ => Action::Nothing,
        }
    }
}

/// Taking a snapshot and then switching the comparison on marks as new
/// exactly the processes that were not running when the snapshot was taken,
/// whatever the search or the length of the table.
pub proof fn lemma_snapshot_then_diff(s: Session, t: Session, a: Action, u: Session, b: Action, pid: u32)
    requires
        steps_to(s, Event::TakeSnapshot, t, a),
        steps_to(t, Event::ToggleDiffMode, u, b),
    ensures
        (u.snapshot.diff_mode && !u.snapshot.pids.view().contains(pid)) <==> !process_pids_of(s.table).contains(pid),
        u.snapshot.taken,
        u.table == s.table,
{
}

/// A snapshot, a later reading of the processes, and the comparison switched
/// on: the snapshot still holds the processes that ran when it was taken, so
/// a process of the new reading shows as new exactly when it was not running
/// then, and the processes gone since (`Snapshot::closed_pids` of the new
/// pids) are those that ran then and are absent now.
pub proof fn lemma_diff_after_reading(
    s: Session,
    procs: Vec<ProcessItem>,
    t: Session,
    a: Action,
    u: Session,
    b: Action,
    w: Session,
    c: Action,
    pid: u32,
)
    requires
        steps_to(s, Event::TakeSnapshot, t, a),
        steps_to(t, Event::ProcessesLoaded(procs), u, b),
        steps_to(u, Event::ToggleDiffMode, w, c),
    ensures
        w.snapshot.diff_mode,
        w.table.processes == procs,
        w.snapshot.pids.view() == process_pids_of(s.table).to_set(),
        !w.snapshot.pids.view().contains(pid) <==> !process_pids_of(s.table).contains(pid),
{
}

/// Boost mode started with the processes it managed to suspend and then
/// switched off again asks to resume exactly those processes, each once, and leaves
/// marked as suspended just the processes the user had suspended that boost
/// mode did not.
pub proof fn lemma_boost_session_round_trip(
    s: Session,
    pids: Vec<u32>,
    t: Session,
    a: Action,
    u: Session,
    b: Action,
)
    requires
        !s.suspensions.boost_active,
        steps_to(s, Event::BoostStarted(pids), t, a),
        steps_to(t, Event::ToggleBoostMode, u, b),
    ensures
        a == Action::RefreshAll,
        b matches Action::ResumeAll(v) && v@.to_set() == pids@.to_set() && v@.no_duplicates(),
        !u.suspensions.boost_active,
        u.suspensions.suspended.view() == s.suspensions.suspended.view().difference(pids@.to_set()),
        u.table == s.table,
        u.snapshot == s.snapshot,
{
    assert(u.suspensions.suspended.view() =~= s.suspensions.suspended.view().difference(pids@.to_set()));
}

/// The (pid, memory) readings of a list of processes.
fn memory_readings(procs: &Vec<ProcessItem>) -> (samples: Vec<(u32, u64)>)
    ensures
        samples@ == memory_samples(procs@),
{
    let mut samples: Vec<(u32, u64)> = Vec::new();
    let mut i: usize = 0;
    while i < procs.len()
        invariant
            i <= procs.len(),
            samples@ == memory_samples(procs@.take(i as int)),
        decreases procs.len() - i,
    {
        samples.push((procs[i].pid, procs[i].memory_bytes));
        i = i + 1;
        assert(memory_samples(procs@.take(i as int)) =~= samples@);
    }
    assert(procs@.take(i as int) =~= procs@);
    samples
}

} // verus!
