//! Checks of a ledger: days in strictly increasing order of date, and no
//! task that starts at or before the end of a task listed before it on
//! the same day.
use crate::clock::{instant_text, utc_text};
use crate::model::{day_wf, days_view, days_wf, task_text, task_wf, texts, Day, DayView, Task, TaskView};
use vstd::prelude::*;
use vstd::string::StringExecFns;

verus! {

/// "<date a> appears before <date b>".
pub open spec fn order_message(a: int, b: int) -> Seq<char> {
    utc_text(a) + " appears before "@ + utc_text(b)
}

/// "Task \"<t>\" overlaps with task \"<u>\"".
pub open spec fn overlap_message(t: TaskView, u: TaskView) -> Seq<char> {
    "Task \""@ + task_text(t) + "\" overlaps with task \""@ + task_text(u) + "\""@
}

/// The closing message of a ledger with at least one issue.
pub open spec fn summary_message() -> Seq<char> {
    "Ledger contains at least one issue, e.g. days or tasks are out of order, or tasks overlap"@
}

/// Task `j` starts at or before the end of task `i`.
pub open spec fn overlaps(ts: Seq<TaskView>, i: int, j: int) -> bool {
    ts[j].start <= ts[i].end
}

/// Warnings for task `i` against tasks `i + 1 .. j`, in order.
pub open spec fn pair_warnings(ts: Seq<TaskView>, i: int, j: int) -> Seq<Seq<char>>
    decreases j - i,
{
    if j <= i + 1 {
        Seq::empty()
    } else {
        pair_warnings(ts, i, j - 1) + if overlaps(ts, i, j - 1) {
            seq![overlap_message(ts[i], ts[j - 1])]
        } else {
            Seq::empty()
        }
    }
}

/// Warnings for tasks `0 .. n`, each against every task after it.
pub open spec fn task_warnings(ts: Seq<TaskView>, n: int) -> Seq<Seq<char>>
    decreases n,
{
    if n <= 0 {
        Seq::empty()
    } else {
        task_warnings(ts, n - 1) + pair_warnings(ts, n - 1, ts.len() as int)
    }
}

/// Overlap warnings of one day, in source order.
pub open spec fn day_warnings(ts: Seq<TaskView>) -> Seq<Seq<char>> {
    task_warnings(ts, ts.len() as int)
}

/// The warning for two neighbouring days, if the first is not strictly
/// before the second.
pub open spec fn order_warning(a: DayView, b: DayView) -> Seq<Seq<char>> {
    if a.date < b.date {
        Seq::empty()
    } else {
        seq![order_message(a.date, b.date)]
    }
}

/// All warnings of a ledger: the first day's overlaps, then for each later
/// day its overlaps followed by its order warning against the day before.
pub open spec fn ledger_warnings(days: Seq<DayView>) -> Seq<Seq<char>>
    decreases days.len(),
{
    if days.len() == 0 {
        Seq::empty()
    } else if days.len() == 1 {
        day_warnings(days[0].tasks)
    } else {
        let n = days.len() as int;
        ledger_warnings(days.drop_last()) + day_warnings(days[n - 1].tasks) + order_warning(days[n - 2], days[n - 1])
    }
}

/// A ledger is valid when it has no warning.
pub open spec fn ledger_valid(days: Seq<DayView>) -> bool {
    ledger_warnings(days).len() == 0
}

/// What the checks report: the warnings, then the summary if there was any.
pub open spec fn diagnostics(days: Seq<DayView>) -> Seq<Seq<char>> {
    if ledger_valid(days) {
        Seq::empty()
    } else {
        ledger_warnings(days).push(summary_message())
    }
}

/// How a task reads in a diagnostic.
pub fn describe_task(t: &Task) -> (r: String)
    requires
        crate::clock::in_range(t.start as int),
        crate::clock::in_range(t.end as int),
    ensures
        r@ == task_text(t@),
{
    let mut s = instant_text(t.start);
    s.append(" - ");
    let e = instant_text(t.end);
    s.append(e.as_str());
    s.append(": ");
    s.append(t.description.as_str());
    s
}

/// Appends the overlap warnings of one day's tasks to `msgs`.
pub fn check_tasks(date: i64, tasks: &Vec<Task>, msgs: &mut Vec<String>)
    requires
        forall|i: int| 0 <= i < tasks@.len() ==> #[trigger] task_wf(date as int, tasks@[i]@),
    ensures
        texts(final(msgs)@) == texts(old(msgs)@) + day_warnings(tasks@.map_values(|t: Task| t@)),
{
    let ghost ts = tasks@.map_values(|t: Task| t@);
    let ghost m0 = texts(msgs@);
    let n = tasks.len();
    let mut i: usize = 0;
    while i < n
        invariant
            n == tasks@.len(),
            ts == tasks@.map_values(|t: Task| t@),
            0 <= i <= n,
            forall|k: int| 0 <= k < tasks@.len() ==> #[trigger] task_wf(date as int, tasks@[k]@),
            texts(msgs@) == m0 + task_warnings(ts, i as int),
        decreases n - i,
    {
        let mut j: usize = i + 1;
        while j < n
            invariant
                n == tasks@.len(),
                ts == tasks@.map_values(|t: Task| t@),
                0 <= i < n,
                i + 1 <= j <= n,
                forall|k: int| 0 <= k < tasks@.len() ==> #[trigger] task_wf(date as int, tasks@[k]@),
                texts(msgs@) == m0 + task_warnings(ts, i as int) + pair_warnings(ts, i as int, j as int),
            decreases n - j,
        {
            let ghost before = texts(msgs@);
            if tasks[j].start <= tasks[i].end {
                assert(task_wf(date as int, tasks@[i as int]@));
                assert(task_wf(date as int, tasks@[j as int]@));
                let mut s = String::from_str("Task \"");
                let a = describe_task(&tasks[i]);
                s.append(a.as_str());
                s.append("\" overlaps with task \"");
                let b = describe_task(&tasks[j]);
                s.append(b.as_str());
                s.append("\"");
                msgs.push(s);
                assert(texts(msgs@) =~= before.push(s@));
            }
            j += 1;
        }
        i += 1;
    }
    assert(task_warnings(ts, n as int) == day_warnings(ts));
}

/// The warnings of a ledger's days, in the order in which they are found.
pub fn ledger_warning_list(days: &Vec<Day>) -> (r: Vec<String>)
    requires
        days_wf(days_view(days@)),
    ensures
        texts(r@) == ledger_warnings(days_view(days@)),
{
    let ghost dv = days_view(days@);
    let mut msgs: Vec<String> = Vec::new();
    let n = days.len();
    let mut k: usize = 0;
    while k < n
        invariant
            n == days@.len(),
            dv == days_view(days@),
            days_wf(dv),
            0 <= k <= n,
            texts(msgs@) == ledger_warnings(dv.subrange(0, k as int)),
        decreases n - k,
    {
        assert(day_wf(dv[k as int]));
        assert forall|i: int| 0 <= i < days@[k as int].tasks@.len()
            implies #[trigger] task_wf(days@[k as int].date as int, days@[k as int].tasks@[i]@) by {
            assert(dv[k as int].tasks[i] == days@[k as int].tasks@[i]@);
        }
        check_tasks(days[k].date, &days[k].tasks, &mut msgs);
        if k > 0 {
            assert(day_wf(dv[k - 1]));
            if days[k - 1].date >= days[k].date {
                let mut s = instant_text(days[k - 1].date);
                s.append(" appears before ");
                let b = instant_text(days[k].date);
                s.append(b.as_str());
                let ghost before = texts(msgs@);
                msgs.push(s);
                assert(texts(msgs@) =~= before.push(s@));
            }
            assert(dv.subrange(0, k + 1).drop_last() =~= dv.subrange(0, k as int));
        }
        k += 1;
    }
    assert(dv.subrange(0, n as int) =~= dv);
    msgs
}

/// What the checks of a ledger report: its warnings, then the summary
/// message where there is any warning.
pub fn diagnostic_list(days: &Vec<Day>) -> (r: Vec<String>)
    requires
        days_wf(days_view(days@)),
    ensures
        texts(r@) == diagnostics(days_view(days@)),
{
    let mut msgs = ledger_warning_list(days);
    if msgs.len() > 0 {
        let ghost before = texts(msgs@);
        let s = String::from_str("Ledger contains at least one issue, e.g. days or tasks are out of order, or tasks overlap");
        msgs.push(s);
        assert(texts(msgs@) =~= before.push(s@));
    }
    msgs
}

/// Day `k` is not strictly after day `k - 1`.
pub open spec fn out_of_order(days: Seq<DayView>, k: int) -> bool {
    !(days[k - 1].date < days[k].date)
}

/// Every day is strictly after the day before it.
pub open spec fn strictly_increasing(days: Seq<DayView>) -> bool {
    forall|k: int| 1 <= k < days.len() ==> !#[trigger] out_of_order(days, k)
}

/// The overlap warnings of all days, day after day.
pub open spec fn all_day_warnings(days: Seq<DayView>) -> Seq<Seq<char>>
    decreases days.len(),
{
    if days.len() == 0 {
        Seq::empty()
    } else {
        all_day_warnings(days.drop_last()) + day_warnings(days.last().tasks)
    }
}

/// How many neighbouring days are out of order.
pub open spec fn misordered_count(days: Seq<DayView>) -> nat
    decreases days.len(),
{
    if days.len() <= 1 {
        0
    } else {
        misordered_count(days.drop_last()) + if out_of_order(days, days.len() - 1) { 1nat } else { 0nat }
    }
}

/// A ledger of at most one day has no order warning: its warnings are its
/// days' overlap warnings alone.
pub proof fn lemma_single_day_in_order(days: Seq<DayView>)
    requires
        days.len() <= 1,
    ensures
        ledger_warnings(days) == all_day_warnings(days),
        misordered_count(days) == 0,
{
    if days.len() == 1 {
        assert(days.drop_last().len() == 0);
        assert(all_day_warnings(days.drop_last()) == Seq::<Seq<char>>::empty());
        assert(days.last() == days[0]);
        assert(all_day_warnings(days) =~= day_warnings(days[0].tasks));
    }
}

/// Where dates strictly increase, no order warning is given: the warnings
/// are the days' overlap warnings alone.
pub proof fn lemma_increasing_days_in_order(days: Seq<DayView>)
    requires
        strictly_increasing(days),
    ensures
        ledger_warnings(days) == all_day_warnings(days),
        misordered_count(days) == 0,
    decreases days.len(),
{
    if days.len() <= 1 {
        lemma_single_day_in_order(days);
    } else {
        let n = days.len() as int;
        let prefix = days.drop_last();
        assert forall|k: int| 1 <= k < prefix.len() implies !#[trigger] out_of_order(prefix, k) by {
            assert(!out_of_order(days, k));
        }
        lemma_increasing_days_in_order(prefix);
        assert(!out_of_order(days, n - 1));
        assert(order_warning(days[n - 2], days[n - 1]) =~= Seq::<Seq<char>>::empty());
        assert(ledger_warnings(days) =~= all_day_warnings(days));
    }
}

/// One order warning per pair of neighbouring days out of order: the
/// warnings are the overlap warnings and those.
pub proof fn lemma_warning_count(days: Seq<DayView>)
    ensures
        ledger_warnings(days).len() == all_day_warnings(days).len() + misordered_count(days),
    decreases days.len(),
{
    if days.len() == 1 {
        lemma_single_day_in_order(days);
    } else if days.len() > 1 {
        lemma_warning_count(days.drop_last());
    }
}

proof fn lemma_contains_left(a: Seq<Seq<char>>, b: Seq<Seq<char>>, x: Seq<char>)
    requires
        a.contains(x),
    ensures
        (a + b).contains(x),
{
    let i = choose|i: int| 0 <= i < a.len() && a[i] == x;
    assert((a + b)[i] == x);
}

proof fn lemma_contains_right(a: Seq<Seq<char>>, b: Seq<Seq<char>>, x: Seq<char>)
    requires
        b.contains(x),
    ensures
        (a + b).contains(x),
{
    let i = choose|i: int| 0 <= i < b.len() && b[i] == x;
    assert((a + b)[a.len() + i] == x);
}

/// A day not strictly after the day before it gives the warning that
/// names both dates; the ledger is then invalid, and the summary message
/// closes its diagnostics.
pub proof fn lemma_misordered_day_warns(days: Seq<DayView>, k: int)
    requires
        1 <= k < days.len(),
        out_of_order(days, k),
    ensures
        ledger_warnings(days).contains(order_message(days[k - 1].date, days[k].date)),
        !ledger_valid(days),
        diagnostics(days).last() == summary_message(),
        misordered_count(days) >= 1,
    decreases days.len(),
{
    let n = days.len() as int;
    let msg = order_message(days[k - 1].date, days[k].date);
    if k == n - 1 {
        assert(order_warning(days[n - 2], days[n - 1]) == seq![msg]);
        assert(seq![msg][0] == msg);
        lemma_contains_right(ledger_warnings(days.drop_last()) + day_warnings(days[n - 1].tasks), seq![msg], msg);
    } else {
        let prefix = days.drop_last();
        assert(out_of_order(prefix, k));
        lemma_misordered_day_warns(prefix, k);
        lemma_contains_left(ledger_warnings(prefix), day_warnings(days[n - 1].tasks), msg);
        lemma_contains_left(ledger_warnings(prefix) + day_warnings(days[n - 1].tasks), order_warning(days[n - 2], days[n - 1]), msg);
    }
}

proof fn lemma_pair_warns(ts: Seq<TaskView>, i: int, j: int, m: int)
    requires
        0 <= i < j < m <= ts.len(),
        overlaps(ts, i, j),
    ensures
        pair_warnings(ts, i, m).contains(overlap_message(ts[i], ts[j])),
    decreases m,
{
    let msg = overlap_message(ts[i], ts[j]);
    if m == j + 1 {
        assert(seq![msg][0] == msg);
        lemma_contains_right(pair_warnings(ts, i, j), seq![msg], msg);
    } else {
        lemma_pair_warns(ts, i, j, m - 1);
        let extra = if overlaps(ts, i, m - 1) { seq![overlap_message(ts[i], ts[m - 1])] } else { Seq::<Seq<char>>::empty() };
        lemma_contains_left(pair_warnings(ts, i, m - 1), extra, msg);
    }
}

proof fn lemma_task_warns(ts: Seq<TaskView>, i: int, j: int, n: int)
    requires
        0 <= i < j < ts.len(),
        i < n <= ts.len(),
        overlaps(ts, i, j),
    ensures
        task_warnings(ts, n).contains(overlap_message(ts[i], ts[j])),
    decreases n,
{
    let msg = overlap_message(ts[i], ts[j]);
    if n == i + 1 {
        lemma_pair_warns(ts, i, j, ts.len() as int);
        lemma_contains_right(task_warnings(ts, n - 1), pair_warnings(ts, n - 1, ts.len() as int), msg);
    } else {
        lemma_task_warns(ts, i, j, n - 1);
        lemma_contains_left(task_warnings(ts, n - 1), pair_warnings(ts, n - 1, ts.len() as int), msg);
    }
}

/// On a day, a task that starts at or before the end of an earlier listed
/// task gives the warning that names both.
pub proof fn lemma_overlap_warns(ts: Seq<TaskView>, i: int, j: int)
    requires
        0 <= i < j < ts.len(),
        ts[j].start <= ts[i].end,
    ensures
        day_warnings(ts).contains(overlap_message(ts[i], ts[j])),
{
    lemma_task_warns(ts, i, j, ts.len() as int);
}

/// Every day's overlap warnings are among the ledger's warnings, whatever
/// the order of the days.
pub proof fn lemma_day_warnings_in_ledger(days: Seq<DayView>, d: int, x: Seq<char>)
    requires
        0 <= d < days.len(),
        day_warnings(days[d].tasks).contains(x),
    ensures
        ledger_warnings(days).contains(x),
        !ledger_valid(days),
    decreases days.len(),
{
    let n = days.len() as int;
    if n == 1 {
    } else if d == n - 1 {
        lemma_contains_right(ledger_warnings(days.drop_last()), day_warnings(days[n - 1].tasks), x);
        lemma_contains_left(ledger_warnings(days.drop_last()) + day_warnings(days[n - 1].tasks), order_warning(days[n - 2], days[n - 1]), x);
    } else {
        lemma_day_warnings_in_ledger(days.drop_last(), d, x);
        lemma_contains_left(ledger_warnings(days.drop_last()), day_warnings(days[n - 1].tasks), x);
        lemma_contains_left(ledger_warnings(days.drop_last()) + day_warnings(days[n - 1].tasks), order_warning(days[n - 2], days[n - 1]), x);
    }
}

/// Two tasks of any day of a ledger, the later listed starting at or
/// before the end of the earlier, give the warning that names both,
/// whether the days are in order or not.
pub proof fn lemma_ledger_overlap_warns(days: Seq<DayView>, d: int, i: int, j: int)
    requires
        0 <= d < days.len(),
        0 <= i < j < days[d].tasks.len(),
        days[d].tasks[j].start <= days[d].tasks[i].end,
    ensures
        ledger_warnings(days).contains(overlap_message(days[d].tasks[i], days[d].tasks[j])),
        !ledger_valid(days),
{
    lemma_overlap_warns(days[d].tasks, i, j);
    lemma_day_warnings_in_ledger(days, d, overlap_message(days[d].tasks[i], days[d].tasks[j]));
}

} // verus!
