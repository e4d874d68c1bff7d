//! What follows from the table's rules over a whole run of the locker: how
//! long an unreported file stays mapped, when it leaves, and that a file which
//! keeps being reported is mapped once and never let go.

use vstd::prelude::*;
use crate::residency::{
    is_expired, spec_end_cycle, spec_install, spec_report, Mapping, Residency, TableView,
    STALE_AFTER,
};

verus! {

/// One thing that happens to the table.
pub enum TableEvent {
    /// A line with this path arrived.
    Reported(Seq<char>),
    /// The file at this path was mapped and handed to the table.
    Installed(Seq<char>, Mapping),
    /// An end-of-cycle marker arrived, and the mappings of these paths were
    /// given back.
    CycleEnded(Set<Seq<char>>),
}

/// The table after one event.
pub open spec fn spec_apply(t: TableView, e: TableEvent) -> TableView {
    match e {
        TableEvent::Reported(p) => spec_report(t, p),
        TableEvent::Installed(p, m) => spec_install(t, p, m),
        TableEvent::CycleEnded(released) => spec_end_cycle(t, released),
    }
}

/// The table after a run of events, first to last.
pub open spec fn spec_run(t: TableView, events: Seq<TableEvent>) -> TableView
    decreases events.len(),
{
    if events.len() == 0 {
        t
    } else {
        spec_apply(spec_run(t, events.drop_last()), events.last())
    }
}

/// How many end-of-cycle markers a run holds.
pub open spec fn markers(events: Seq<TableEvent>) -> nat
    decreases events.len(),
{
    if events.len() == 0 {
        0
    } else if events.last() is CycleEnded {
        markers(events.drop_last()) + 1
    } else {
        markers(events.drop_last())
    }
}

/// Whether a run holds a report of `path`.
pub open spec fn reports(events: Seq<TableEvent>, path: Seq<char>) -> bool {
    exists|i: int| 0 <= i < events.len() && #[trigger] events[i] == TableEvent::Reported(path)
}

/// One scan cycle in which `path` is reported: path lines and mappings, among
/// them a report of `path`, closed by the only marker.
pub open spec fn cycle_reporting(events: Seq<TableEvent>, path: Seq<char>) -> bool {
    &&& events.len() > 0
    &&& events.last() is CycleEnded
    &&& markers(events.drop_last()) == 0
    &&& reports(events.drop_last(), path)
}

/// The table after a run of cycles.
pub open spec fn spec_run_cycles(t: TableView, cycles: Seq<Seq<TableEvent>>) -> TableView
    decreases cycles.len(),
{
    if cycles.len() == 0 {
        t
    } else {
        spec_run(spec_run_cycles(t, cycles.drop_last()), cycles.last())
    }
}

proof fn lemma_reports_prefix(events: Seq<TableEvent>, path: Seq<char>)
    requires
        events.len() > 0,
    ensures
        reports(events, path) == (reports(events.drop_last(), path) || events.last()
            == TableEvent::Reported(path)),
{
    let front = events.drop_last();
    if reports(events, path) {
        let i = choose|i: int|
            0 <= i < events.len() && #[trigger] events[i] == TableEvent::Reported(path);
        if i < front.len() {
            assert(front[i] == TableEvent::Reported(path));
        }
    }
    if reports(front, path) {
        let i = choose|i: int|
            0 <= i < front.len() && #[trigger] front[i] == TableEvent::Reported(path);
        assert(events[i] == TableEvent::Reported(path));
    }
    if events.last() == TableEvent::Reported(path) {
        assert(events[events.len() - 1] == TableEvent::Reported(path));
    }
}

/// While a resident file goes unreported, it stays mapped as it is for as
/// long as its counter and the markers that arrive add up to no more than
/// the threshold, and each marker adds one to the counter. Whatever the caller
/// names as released in between makes no difference.
pub proof fn lemma_unreported_ages(t: TableView, path: Seq<char>, events: Seq<TableEvent>)
    requires
        t.dom().contains(path),
        !reports(events, path),
        t[path].last_seen_ago + markers(events) <= STALE_AFTER,
    ensures
        spec_run(t, events).dom().contains(path),
        spec_run(t, events)[path].mapping == t[path].mapping,
        spec_run(t, events)[path].last_seen_ago == t[path].last_seen_ago + markers(events),
    decreases events.len(),
{
    if events.len() > 0 {
        lemma_reports_prefix(events, path);
        lemma_unreported_ages(t, path, events.drop_last());
    }
}

/// Between two markers a resident file keeps its mapping, and its counter is
/// zero from its first report on.
pub proof fn lemma_within_cycle(t: TableView, path: Seq<char>, events: Seq<TableEvent>)
    requires
        t.dom().contains(path),
        markers(events) == 0,
    ensures
        spec_run(t, events).dom().contains(path),
        spec_run(t, events)[path].mapping == t[path].mapping,
        spec_run(t, events)[path].last_seen_ago == if reports(events, path) {
            0
        } else {
            t[path].last_seen_ago
        },
    decreases events.len(),
{
    if events.len() > 0 {
        lemma_reports_prefix(events, path);
        lemma_within_cycle(t, path, events.drop_last());
    }
}

proof fn lemma_run_concat(t: TableView, a: Seq<TableEvent>, b: Seq<TableEvent>)
    ensures
        spec_run(t, a + b) == spec_run(spec_run(t, a), b),
    decreases b.len(),
{
    if b.len() == 0 {
        assert(a + b =~= a);
    } else {
        lemma_run_concat(t, a, b.drop_last());
        assert((a + b).drop_last() =~= a + b.drop_last());
        assert((a + b).last() == b.last());
    }
}

proof fn lemma_prefix(events: Seq<TableEvent>, path: Seq<char>, n: int)
    requires
        0 <= n <= events.len(),
    ensures
        markers(events.take(n)) <= markers(events),
        reports(events.take(n), path) ==> reports(events, path),
    decreases events.len(),
{
    let head = events.take(n);
    if reports(head, path) {
        let i = choose|i: int|
            0 <= i < head.len() && #[trigger] head[i] == TableEvent::Reported(path);
        assert(events[i] == TableEvent::Reported(path));
    }
    if n == events.len() {
        assert(head =~= events);
    } else {
        lemma_prefix(events.drop_last(), path, n);
        assert(events.drop_last().take(n) =~= head);
    }
}

proof fn lemma_cycle(t: TableView, path: Seq<char>, cycle: Seq<TableEvent>)
    requires
        t.dom().contains(path),
        cycle_reporting(cycle, path),
    ensures
        spec_run(t, cycle.drop_last())[path].last_seen_ago == 0,
        spec_run(t, cycle).dom().contains(path),
        spec_run(t, cycle)[path] == (Residency { mapping: t[path].mapping, last_seen_ago: 1 }),
{
    lemma_within_cycle(t, path, cycle.drop_last());
}

/// A file that is reported in every cycle is mapped once and for all: through
/// any number of such cycles the table holds the one mapping it had at the
/// start. In each of them its counter is zero when the marker arrives; once
/// the marker has aged the table it is one, which is no cycle unseen.
pub proof fn lemma_reported_every_cycle(
    t: TableView,
    path: Seq<char>,
    cycles: Seq<Seq<TableEvent>>,
)
    requires
        t.dom().contains(path),
        forall|i: int| 0 <= i < cycles.len() ==> cycle_reporting(#[trigger] cycles[i], path),
    ensures
        spec_run_cycles(t, cycles).dom().contains(path),
        spec_run_cycles(t, cycles)[path].mapping == t[path].mapping,
        cycles.len() > 0 ==> spec_run_cycles(t, cycles)[path].last_seen_ago == 1,
        cycles.len() > 0 ==> spec_run_cycles(t, cycles)[path].cycles_unseen() == 0,
        forall|i: int|
            0 <= i < cycles.len() ==> spec_run(
                spec_run_cycles(t, cycles.take(i)),
                (#[trigger] cycles[i]).drop_last(),
            )[path].last_seen_ago == 0,
    decreases cycles.len(),
{
    if cycles.len() > 0 {
        let front = cycles.drop_last();
        lemma_reported_every_cycle(t, path, front);
        lemma_cycle(spec_run_cycles(t, front), path, cycles.last());
        assert forall|i: int| 0 <= i < cycles.len() implies spec_run(
            spec_run_cycles(t, cycles.take(i)),
            (#[trigger] cycles[i]).drop_last(),
        )[path].last_seen_ago == 0 by {
            if i < front.len() {
                assert(front.take(i) =~= cycles.take(i));
                assert(front[i] == cycles[i]);
            } else {
                assert(cycles.take(i) =~= front);
            }
        }
    }
}

/// A file leaves the table at the fifth marker in a row that closes a cycle
/// without a report of it, not before and, if its mapping is given back then,
/// not after. `seen` is the cycle of its last report and `quiet` what follows,
/// up to the fourth marker: at every point of `quiet` the file is still
/// mapped as it was, whatever was named as released; the next marker removes
/// it.
pub proof fn lemma_leaves_at_fifth_marker(
    t: TableView,
    path: Seq<char>,
    seen: Seq<TableEvent>,
    quiet: Seq<TableEvent>,
    released: Set<Seq<char>>,
)
    requires
        t.dom().contains(path),
        cycle_reporting(seen, path),
        !reports(quiet, path),
        markers(quiet) == 4,
        released.contains(path),
    ensures
        forall|n: int|
            0 <= n <= quiet.len() ==> (#[trigger] spec_run(t, seen + quiet.take(n))).dom().contains(
                path,
            ) && spec_run(t, seen + quiet.take(n))[path].mapping == t[path].mapping,
        !spec_run(t, (seen + quiet).push(TableEvent::CycleEnded(released))).dom().contains(path),
{
    lemma_cycle(t, path, seen);
    let start = spec_run(t, seen);
    assert forall|n: int| 0 <= n <= quiet.len() implies (#[trigger] spec_run(
        t,
        seen + quiet.take(n),
    )).dom().contains(path) && spec_run(t, seen + quiet.take(n))[path].mapping
        == t[path].mapping by {
        lemma_prefix(quiet, path, n);
        lemma_run_concat(t, seen, quiet.take(n));
        lemma_unreported_ages(start, path, quiet.take(n));
    }
    lemma_run_concat(t, seen, quiet);
    lemma_unreported_ages(start, path, quiet);
    let all = (seen + quiet).push(TableEvent::CycleEnded(released));
    assert(all.drop_last() =~= seen + quiet);
    assert(is_expired(spec_run(t, seen + quiet)[path]));
}

/// A file that is reported again after fewer than five cycles without a
/// report was mapped all the while, as it was at the start, and has its
/// counter back at zero. `seen` is the cycle of the earlier report and `quiet`
/// the cycles without one.
pub proof fn lemma_reappearance_resets(
    t: TableView,
    path: Seq<char>,
    seen: Seq<TableEvent>,
    quiet: Seq<TableEvent>,
)
    requires
        t.dom().contains(path),
        cycle_reporting(seen, path),
        !reports(quiet, path),
        markers(quiet) < 5,
    ensures
        forall|n: int|
            0 <= n <= quiet.len() ==> (#[trigger] spec_run(t, seen + quiet.take(n))).dom().contains(
                path,
            ) && spec_run(t, seen + quiet.take(n))[path].mapping == t[path].mapping,
        spec_run(t, (seen + quiet).push(TableEvent::Reported(path))).dom().contains(path),
        spec_run(t, (seen + quiet).push(TableEvent::Reported(path)))[path] == (Residency {
            mapping: t[path].mapping,
            last_seen_ago: 0,
        }),
{
    lemma_cycle(t, path, seen);
    let start = spec_run(t, seen);
    assert forall|n: int| 0 <= n <= quiet.len() implies (#[trigger] spec_run(
        t,
        seen + quiet.take(n),
    )).dom().contains(path) && spec_run(t, seen + quiet.take(n))[path].mapping
        == t[path].mapping by {
        lemma_prefix(quiet, path, n);
        lemma_run_concat(t, seen, quiet.take(n));
        lemma_unreported_ages(start, path, quiet.take(n));
    }
    lemma_run_concat(t, seen, quiet);
    lemma_unreported_ages(start, path, quiet);
    let all = (seen + quiet).push(TableEvent::Reported(path));
    assert(all.drop_last() =~= seen + quiet);
}

} // verus!
