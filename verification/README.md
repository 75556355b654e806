# TaskExplorer

A process manager and system monitor. The window lists the running processes
with live CPU mini-charts, flags memory leaks, zombie-like and suspicious
processes, compares the process list with a snapshot, suspends resource hogs
in boost mode, reports the busiest disk users and heaviest writers, and
manages the programs started at logon.

## Layout

- `src/` is the library, verified with Verus. Every public function states in
  its contract what it returns or changes:
  - `format`, `text`: sizes, rates, durations, and the string handling the
    rules rely on;
  - `system`, `heuristics`, `startup`, `messages`: the records the monitor
    reads, the rules that classify processes and startup programs, and the
    status lines;
  - `table`, `leak`, `sparkline`, `tracking`, `tree`, `ui`: the process
    table's search and sort, leak detection, CPU histories, snapshots and
    suspensions, process trees, and selection;
  - `session`: how the window answers each event, as a step from one session
    to the next together with the work to carry out.
- `tests/` runs the library on concrete values.
- `app/` is the program around it: the `iced` window, the readings through
  `sysinfo`, the registry and file access, and the settings file. It carries
  out the work the session asks for and hands the outcomes back as events.

## Design notes

The per-process bookkeeping (`PidSet`, the leak tracker's histories, the
mini-chart histories) is kept in vectors of entries rather than in std's
`HashSet`/`HashMap`. What comes out of it is handed on in an order: the pids
to resume, the flagged processes, the history returned for each sample in the
order of the samples. A `HashMap` or `HashSet` is walked in an order that each
process seeds at random, so nothing could be stated or tested of that order;
with vectors it is fixed, and the contracts state the contents as sets and maps
of the entries all the same.
