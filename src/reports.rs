//! What the three reports say, and the tables behind them.
use crate::clock::{date_text, in_range, weekday, weekday_number};
use crate::hours::{format_hours, hours_text};
use crate::model::{day_wf, days_view, days_wf, duration, task_wf, texts, Day, DayView, Task, TaskView};
use vstd::prelude::*;
use vstd::string::StringExecFns;

verus! {

/// Seconds that the tasks last together (overlaps count twice).
pub open spec fn total_seconds(ts: Seq<TaskView>) -> int
    decreases ts.len(),
{
    if ts.len() == 0 {
        0
    } else {
        total_seconds(ts.drop_last()) + duration(ts.last())
    }
}

/// Whole minutes in `secs`, truncated toward zero.
pub open spec fn whole_minutes(secs: int) -> int {
    if secs >= 0 {
        secs / 60
    } else {
        -((-secs) / 60)
    }
}

/// A report line: "<label>: <hours>hrs".
pub open spec fn report_line(label: Seq<char>, secs: int) -> Seq<char> {
    label + ": "@ + hours_text(whole_minutes(secs)) + "hrs\n"@
}

/// One line per day, in ledger order.
pub open spec fn day_lines(days: Seq<DayView>) -> Seq<char>
    decreases days.len(),
{
    if days.len() == 0 {
        Seq::empty()
    } else {
        day_lines(days.drop_last()) + report_line(date_text(days.last().date), total_seconds(days.last().tasks))
    }
}

pub open spec fn day_rule() -> Seq<char> {
    "# ------------- #\n"@
}

pub open spec fn day_report(days: Seq<DayView>) -> Seq<char> {
    day_rule() + "# Hours per Day #\n"@ + day_rule() + day_lines(days) + day_rule()
}

/// Midnight of the Monday of the week of `date`.
pub open spec fn week_start(date: int) -> int {
    date - (weekday(date) - 1) * 86400
}

/// Every day's week starts at an instant that chrono represents.
pub open spec fn weeks_in_range(days: Seq<DayView>) -> bool {
    forall|i: int| 0 <= i < days.len() ==> #[trigger] in_range(week_start(days[i].date))
}

/// (week start, seconds): one with no time for each day, then one for each
/// of its tasks.
pub open spec fn day_week_pairs(d: DayView) -> Seq<(int, int)> {
    seq![(week_start(d.date), 0int)] + d.tasks.map_values(|t: TaskView| (week_start(d.date), duration(t)))
}

pub open spec fn week_pairs(days: Seq<DayView>) -> Seq<(int, int)>
    decreases days.len(),
{
    if days.len() == 0 {
        Seq::empty()
    } else {
        week_pairs(days.drop_last()) + day_week_pairs(days.last())
    }
}

/// (tag, seconds of its task) for each tag of each task.
pub open spec fn task_tag_pairs(t: TaskView) -> Seq<(Seq<char>, int)> {
    t.tags.map_values(|g: Seq<char>| (g, duration(t)))
}

pub open spec fn tasks_tag_pairs(ts: Seq<TaskView>) -> Seq<(Seq<char>, int)>
    decreases ts.len(),
{
    if ts.len() == 0 {
        Seq::empty()
    } else {
        tasks_tag_pairs(ts.drop_last()) + task_tag_pairs(ts.last())
    }
}

pub open spec fn tag_pairs(days: Seq<DayView>) -> Seq<(Seq<char>, int)>
    decreases days.len(),
{
    if days.len() == 0 {
        Seq::empty()
    } else {
        tag_pairs(days.drop_last()) + tasks_tag_pairs(days.last().tasks)
    }
}

/// Adds `p` to the table: to the total of its key, or as a new last entry.
pub open spec fn add_entry<K>(t: Seq<(K, int)>, p: (K, int)) -> Seq<(K, int)> {
    if exists|i: int| 0 <= i < t.len() && t[i].0 == p.0 {
        t.map_values(|e: (K, int)| if e.0 == p.0 { (e.0, e.1 + p.1) } else { e })
    } else {
        t.push(p)
    }
}

/// Totals per key, keys in order of first appearance.
pub open spec fn accumulate<K>(ps: Seq<(K, int)>) -> Seq<(K, int)>
    decreases ps.len(),
{
    if ps.len() == 0 {
        Seq::empty()
    } else {
        add_entry(accumulate(ps.drop_last()), ps.last())
    }
}

/// Index `a` comes before index `b`: by key, then by index.
pub open spec fn key_less(keys: Seq<int>, a: int, b: int) -> bool {
    keys[a] < keys[b] || (keys[a] == keys[b] && a < b)
}

/// `order` holds the index `i`.
pub open spec fn listed(order: Seq<usize>, i: int) -> bool {
    exists|k: int| 0 <= k < order.len() && order[k] as int == i
}

/// `order` lists every index of `keys` once, by key and then by index.
pub open spec fn is_sorted_order(keys: Seq<int>, order: Seq<usize>) -> bool {
    &&& order.len() == keys.len()
    &&& forall|k: int| 0 <= k < order.len() ==> #[trigger] order[k] < keys.len()
    &&& forall|i: int| 0 <= i < keys.len() ==> #[trigger] listed(order, i)
    &&& forall|k: int, l: int| 0 <= k < l < order.len() ==> key_less(keys, #[trigger] order[k] as int, #[trigger] order[l] as int)
}

pub open spec fn week_rule() -> Seq<char> {
    "# -------------- #\n"@
}

/// The week table's lines, in the given order.
pub open spec fn week_lines(t: Seq<(int, int)>, order: Seq<usize>) -> Seq<char>
    decreases order.len(),
{
    if order.len() == 0 {
        Seq::empty()
    } else {
        let e = t[order.last() as int];
        week_lines(t, order.drop_last()) + report_line(date_text(e.0), e.1)
    }
}

pub open spec fn week_table(days: Seq<DayView>) -> Seq<(int, int)> {
    accumulate(week_pairs(days))
}

/// The week report, its weeks listed in `order`.
pub open spec fn week_report(days: Seq<DayView>, order: Seq<usize>) -> Seq<char> {
    week_rule() + "# Hours per Week #\n"@ + week_rule() + week_lines(week_table(days), order) + week_rule()
}

/// The week table ordered by week start.
pub open spec fn week_order(days: Seq<DayView>, order: Seq<usize>) -> bool {
    is_sorted_order(week_table(days).map_values(|e: (int, int)| e.0), order)
}

/// The tag table's lines, in the given order.
pub open spec fn tag_lines(t: Seq<(Seq<char>, int)>, order: Seq<usize>) -> Seq<char>
    decreases order.len(),
{
    if order.len() == 0 {
        Seq::empty()
    } else {
        let e = t[order.last() as int];
        tag_lines(t, order.drop_last()) + report_line(e.0, e.1)
    }
}

pub open spec fn tag_table(days: Seq<DayView>) -> Seq<(Seq<char>, int)> {
    accumulate(tag_pairs(days))
}

/// The tag report, its tags listed in `order`.
pub open spec fn tag_report(days: Seq<DayView>, order: Seq<usize>) -> Seq<char> {
    day_rule() + "# Hours per Tag #\n"@ + day_rule() + tag_lines(tag_table(days), order) + day_rule()
}

/// The tag table ordered by total, and tags of equal total in order of
/// first appearance.
pub open spec fn tag_order(days: Seq<DayView>, order: Seq<usize>) -> bool {
    is_sorted_order(tag_table(days).map_values(|e: (Seq<char>, int)| e.1), order)
}

/// The bound below which every total of the reports stays.
pub open spec fn total_bound() -> int {
    0x1_0000_0000_0000_0000_0000_0000
}

/// Seconds that a day's tasks last together.
pub fn seconds_of(date: i64, tasks: &Vec<Task>) -> (r: i128)
    requires
        forall|i: int| 0 <= i < tasks@.len() ==> #[trigger] task_wf(date as int, tasks@[i]@),
    ensures
        r == total_seconds(tasks@.map_values(|t: Task| t@)),
        -(tasks@.len() * 86400) <= r <= tasks@.len() * 86400,
        -total_bound() <= r <= total_bound(),
{
    let ghost ts = tasks@.map_values(|t: Task| t@);
    let mut total: i128 = 0;
    let mut j: usize = 0;
    while j < tasks.len()
        invariant
            0 <= j <= tasks@.len(),
            ts == tasks@.map_values(|t: Task| t@),
            forall|i: int| 0 <= i < tasks@.len() ==> #[trigger] task_wf(date as int, tasks@[i]@),
            total == total_seconds(ts.subrange(0, j as int)),
            -(j * 86400) <= total <= j * 86400,
        decreases tasks@.len() - j,
    {
        assert(task_wf(date as int, tasks@[j as int]@));
        assert(ts.subrange(0, j + 1).drop_last() =~= ts.subrange(0, j as int));
        total = total + (tasks[j].end as i128 - tasks[j].start as i128);
        j += 1;
    }
    assert(ts.subrange(0, j as int) =~= ts);
    let ghost n = tasks@.len();
    assert(n * 86400 <= total_bound()) by (nonlinear_arith)
        requires n <= usize::MAX;
    total
}

/// A report line: "<label>: <hours>hrs".
pub fn line_text(label: &str, secs: i128) -> (r: String)
    requires
        -total_bound() <= secs <= total_bound(),
    ensures
        r@ == report_line(label@, secs as int),
{
    let minutes: i128 = if secs >= 0 { secs / 60 } else { -((-secs) / 60) };
    let mut s = String::from_str(label);
    s.append(": ");
    let h = format_hours(minutes);
    s.append(h.as_str());
    s.append("hrs\n");
    s
}

pub open spec fn int_pairs(ps: Seq<(i64, i64)>) -> Seq<(int, int)> {
    ps.map_values(|p: (i64, i64)| (p.0 as int, p.1 as int))
}

pub open spec fn int_table(t: Seq<(i64, i128)>) -> Seq<(int, int)> {
    t.map_values(|e: (i64, i128)| (e.0 as int, e.1 as int))
}

pub open spec fn text_pairs(ps: Seq<(String, i64)>) -> Seq<(Seq<char>, int)> {
    ps.map_values(|p: (String, i64)| (p.0@, p.1 as int))
}

pub open spec fn text_table(t: Seq<(String, i128)>) -> Seq<(Seq<char>, int)> {
    t.map_values(|e: (String, i128)| (e.0@, e.1 as int))
}

/// The week of every day and the seconds of every task, as `week_pairs`.
pub fn week_pair_list(days: &Vec<Day>) -> (r: Vec<(i64, i64)>)
    requires
        days_wf(days_view(days@)),
        weeks_in_range(days_view(days@)),
    ensures
        int_pairs(r@) == week_pairs(days_view(days@)),
        forall|i: int| 0 <= i < r@.len() ==> in_range((#[trigger] r@[i]).0 as int) && -86400 <= r@[i].1 <= 86400,
{
    let ghost dv = days_view(days@);
    let mut ps: Vec<(i64, i64)> = Vec::new();
    let mut k: usize = 0;
    assert(dv.subrange(0, 0) =~= Seq::<DayView>::empty());
    while k < days.len()
        invariant
            0 <= k <= days@.len(),
            dv == days_view(days@),
            days_wf(dv),
            weeks_in_range(dv),
            int_pairs(ps@) == week_pairs(dv.subrange(0, k as int)),
            forall|i: int| 0 <= i < ps@.len() ==> in_range((#[trigger] ps@[i]).0 as int) && -86400 <= ps@[i].1 <= 86400,
        decreases days@.len() - k,
    {
        let day = &days[k];
        assert(day_wf(dv[k as int]));
        assert(in_range(week_start(dv[k as int].date)));
        let ghost start = int_pairs(ps@);
        let ghost dp = day_week_pairs(dv[k as int]);
        let w: i64 = day.date - (weekday_number(day.date) as i64 - 1) * 86400;
        ps.push((w, 0));
        assert(int_pairs(ps@) =~= start + dp.subrange(0, 1));
        assert(ps@[ps@.len() - 1] == (w, 0i64));
        let mut j: usize = 0;
        while j < day.tasks.len()
            invariant
                0 <= j <= day.tasks@.len(),
                day == &days@[k as int],
                dv == days_view(days@),
                0 <= k < days@.len(),
                day_wf(dv[k as int]),
                w as int == week_start(dv[k as int].date),
                in_range(w as int),
                dp == day_week_pairs(dv[k as int]),
                int_pairs(ps@) == start + dp.subrange(0, j + 1),
                forall|i: int| 0 <= i < ps@.len() ==> in_range((#[trigger] ps@[i]).0 as int) && -86400 <= ps@[i].1 <= 86400,
            decreases day.tasks@.len() - j,
        {
            assert(dv[k as int].tasks[j as int] == day.tasks@[j as int]@);
            assert(task_wf(dv[k as int].date, dv[k as int].tasks[j as int]));
            let ghost before = int_pairs(ps@);
            ps.push((w, day.tasks[j].end - day.tasks[j].start));
            assert(ps@[ps@.len() - 1].0 == w);
            assert(int_pairs(ps@) =~= before.push(dp[j + 1]));
            assert(dp.subrange(0, j + 2) =~= dp.subrange(0, j + 1).push(dp[j + 1]));
            j += 1;
        }
        assert(dp.subrange(0, j + 1) =~= dp);
        assert(dv.subrange(0, k + 1).drop_last() =~= dv.subrange(0, k as int));
        k += 1;
    }
    assert(dv.subrange(0, k as int) =~= dv);
    ps
}

/// Totals per week start, in order of first appearance.
pub fn accumulate_weeks(ps: &Vec<(i64, i64)>) -> (r: Vec<(i64, i128)>)
    requires
        forall|i: int| 0 <= i < ps@.len() ==> in_range((#[trigger] ps@[i]).0 as int) && -86400 <= ps@[i].1 <= 86400,
    ensures
        int_table(r@) == accumulate(int_pairs(ps@)),
        forall|i: int| 0 <= i < r@.len() ==> in_range((#[trigger] r@[i]).0 as int) && -total_bound() <= r@[i].1 <= total_bound(),
{
    let ghost pv = int_pairs(ps@);
    let mut tbl: Vec<(i64, i128)> = Vec::new();
    let mut i: usize = 0;
    assert(pv.subrange(0, 0) =~= Seq::<(int, int)>::empty());
    assert(int_table(tbl@) =~= Seq::<(int, int)>::empty());
    while i < ps.len()
        invariant
            0 <= i <= ps@.len(),
            pv == int_pairs(ps@),
            forall|q: int| 0 <= q < ps@.len() ==> in_range((#[trigger] ps@[q]).0 as int) && -86400 <= ps@[q].1 <= 86400,
            int_table(tbl@) == accumulate(pv.subrange(0, i as int)),
            forall|q: int| 0 <= q < tbl@.len() ==> in_range((#[trigger] tbl@[q]).0 as int) && -(i * 86400) <= tbl@[q].1 <= i * 86400,
        decreases ps@.len() - i,
    {
        let key = ps[i].0;
        let secs = ps[i].1;
        let ghost t0 = int_table(tbl@);
        let ghost p = pv[i as int];
        assert(i * 86400 + 86400 <= total_bound()) by (nonlinear_arith)
            requires i < usize::MAX;
        let mut found = false;
        let mut j: usize = 0;
        while j < tbl.len()
            invariant
                0 <= j <= tbl@.len(),
                tbl@.len() == t0.len(),
                p == (key as int, secs as int),
                -86400 <= secs <= 86400,
                i * 86400 + 86400 <= total_bound(),
                forall|q: int| 0 <= q < j ==> (#[trigger] tbl@[q]).0 as int == t0[q].0
                    && tbl@[q].1 as int == (if t0[q].0 == p.0 { t0[q].1 + p.1 } else { t0[q].1 }),
                forall|q: int| j <= q < tbl@.len() ==> (#[trigger] tbl@[q]).0 as int == t0[q].0 && tbl@[q].1 as int == t0[q].1,
                forall|q: int| 0 <= q < tbl@.len() ==> in_range((#[trigger] tbl@[q]).0 as int),
                forall|q: int| 0 <= q < tbl@.len() ==> -(i * 86400 + 86400) <= (#[trigger] tbl@[q]).1 <= i * 86400 + 86400,
                forall|q: int| j <= q < tbl@.len() ==> -(i * 86400) <= (#[trigger] tbl@[q]).1 <= i * 86400,
                found <==> exists|q: int| 0 <= q < j && t0[q].0 == p.0,
            decreases tbl@.len() - j,
        {
            if tbl[j].0 == key {
                let e = (key, tbl[j].1 + secs as i128);
                tbl.set(j, e);
                found = true;
            }
            j += 1;
        }
        if !found {
            tbl.push((key, secs as i128));
            assert(int_table(tbl@) =~= t0.push(p));
        } else {
            assert(int_table(tbl@) =~= t0.map_values(|e: (int, int)| if e.0 == p.0 { (e.0, e.1 + p.1) } else { e }));
        }
        assert(pv.subrange(0, i + 1).drop_last() =~= pv.subrange(0, i as int));
        i += 1;
    }
    assert(pv.subrange(0, i as int) =~= pv);
    tbl
}

/// The indices of `keys`, by key and then by index.
pub fn sorted_order(keys: &Vec<i128>) -> (order: Vec<usize>)
    ensures
        is_sorted_order(keys@.map_values(|k: i128| k as int), order@),
{
    let ghost kv = keys@.map_values(|k: i128| k as int);
    let mut order: Vec<usize> = Vec::new();
    let mut i: usize = 0;
    while i < keys.len()
        invariant
            0 <= i <= keys@.len(),
            kv == keys@.map_values(|k: i128| k as int),
            order@.len() == i,
            forall|k: int| 0 <= k < order@.len() ==> #[trigger] order@[k] < i,
            forall|x: int| 0 <= x < i ==> #[trigger] listed(order@, x),
            forall|k: int, l: int| 0 <= k < l < order@.len() ==> key_less(kv, #[trigger] order@[k] as int, #[trigger] order@[l] as int),
        decreases keys@.len() - i,
    {
        let mut p: usize = 0;
        while p < order.len() && !(keys[i] < keys[order[p]] || (keys[i] == keys[order[p]] && i < order[p]))
            invariant
                0 <= p <= order@.len(),
                0 <= i < keys@.len(),
                kv == keys@.map_values(|k: i128| k as int),
                forall|k: int| 0 <= k < order@.len() ==> #[trigger] order@[k] < i,
                forall|q: int| 0 <= q < p ==> key_less(kv, #[trigger] order@[q] as int, i as int),
            decreases order@.len() - p,
        {
            p += 1;
        }
        let ghost old_order = order@;
        proof {
            assert forall|q: int| p <= q < old_order.len() implies key_less(kv, i as int, #[trigger] old_order[q] as int) by {
                assert(key_less(kv, i as int, old_order[p as int] as int));
                if q > p {
                    assert(key_less(kv, old_order[p as int] as int, old_order[q] as int));
                }
            }
        }
        order.insert(p, i);
        assert(order@ == old_order.insert(p as int, i));
        assert forall|x: int| 0 <= x < i + 1 implies #[trigger] listed(order@, x) by {
            if x == i {
                assert(order@[p as int] as int == x);
            } else {
                assert(listed(old_order, x));
                let k = choose|k: int| 0 <= k < old_order.len() && old_order[k] as int == x;
                if k < p {
                    assert(order@[k] as int == x);
                } else {
                    assert(order@[k + 1] as int == x);
                }
            }
        }
        assert forall|k: int, l: int| 0 <= k < l < order@.len() implies key_less(kv, #[trigger] order@[k] as int, #[trigger] order@[l] as int) by {
            if l < p {
                assert(order@[k] == old_order[k] && order@[l] == old_order[l]);
            } else if l == p {
                assert(order@[k] == old_order[k]);
            } else if k < p {
                assert(order@[k] == old_order[k] && order@[l] == old_order[l - 1]);
            } else if k == p {
                assert(order@[l] == old_order[l - 1]);
            } else {
                assert(order@[k] == old_order[k - 1] && order@[l] == old_order[l - 1]);
            }
        }
        i += 1;
    }
    order
}

/// Every tag of every task with the seconds of its task, as `tag_pairs`.
pub fn tag_pair_list(days: &Vec<Day>) -> (r: Vec<(String, i64)>)
    requires
        days_wf(days_view(days@)),
    ensures
        text_pairs(r@) == tag_pairs(days_view(days@)),
        forall|i: int| 0 <= i < r@.len() ==> -86400 <= (#[trigger] r@[i]).1 <= 86400,
{
    let ghost dv = days_view(days@);
    let mut ps: Vec<(String, i64)> = Vec::new();
    let mut k: usize = 0;
    assert(dv.subrange(0, 0) =~= Seq::<DayView>::empty());
    while k < days.len()
        invariant
            0 <= k <= days@.len(),
            dv == days_view(days@),
            days_wf(dv),
            text_pairs(ps@) == tag_pairs(dv.subrange(0, k as int)),
            forall|i: int| 0 <= i < ps@.len() ==> -86400 <= (#[trigger] ps@[i]).1 <= 86400,
        decreases days@.len() - k,
    {
        let day = &days[k];
        assert(day_wf(dv[k as int]));
        let ghost ts = dv[k as int].tasks;
        let ghost start = text_pairs(ps@);
        let mut j: usize = 0;
        assert(ts.subrange(0, 0) =~= Seq::<TaskView>::empty());
        assert(start + tasks_tag_pairs(ts.subrange(0, 0)) =~= start);
        while j < day.tasks.len()
            invariant
                0 <= j <= day.tasks@.len(),
                day == &days@[k as int],
                dv == days_view(days@),
                0 <= k < days@.len(),
                day_wf(dv[k as int]),
                ts == dv[k as int].tasks,
                text_pairs(ps@) == start + tasks_tag_pairs(ts.subrange(0, j as int)),
                forall|i: int| 0 <= i < ps@.len() ==> -86400 <= (#[trigger] ps@[i]).1 <= 86400,
            decreases day.tasks@.len() - j,
        {
            let task = &day.tasks[j];
            assert(ts[j as int] == task@);
            assert(task_wf(dv[k as int].date, ts[j as int]));
            let ghost tp = task_tag_pairs(task@);
            let ghost mid = text_pairs(ps@);
            let secs = task.end - task.start;
            let mut g: usize = 0;
            assert(mid + tp.subrange(0, 0) =~= mid);
            while g < task.tags.len()
                invariant
                    0 <= g <= task.tags@.len(),
                    tp == task_tag_pairs(task@),
                    secs as int == duration(task@),
                    -86400 <= secs <= 86400,
                    text_pairs(ps@) == mid + tp.subrange(0, g as int),
                    forall|i: int| 0 <= i < ps@.len() ==> -86400 <= (#[trigger] ps@[i]).1 <= 86400,
                decreases task.tags@.len() - g,
            {
                let ghost before = text_pairs(ps@);
                ps.push((task.tags[g].clone(), secs));
                assert(ps@[ps@.len() - 1].1 == secs);
                assert(tp[g as int] == (task.tags@[g as int]@, secs as int));
                assert(text_pairs(ps@) =~= before.push(tp[g as int]));
                assert(tp.subrange(0, g + 1) =~= tp.subrange(0, g as int).push(tp[g as int]));
                g += 1;
            }
            assert(tp.subrange(0, g as int) =~= tp);
            assert(ts.subrange(0, j + 1).drop_last() =~= ts.subrange(0, j as int));
            j += 1;
        }
        assert(ts.subrange(0, j as int) =~= ts);
        assert(dv.subrange(0, k + 1).drop_last() =~= dv.subrange(0, k as int));
        k += 1;
    }
    assert(dv.subrange(0, k as int) =~= dv);
    ps
}

/// Totals per tag, in order of first appearance.
pub fn accumulate_tags(ps: &Vec<(String, i64)>) -> (r: Vec<(String, i128)>)
    requires
        forall|i: int| 0 <= i < ps@.len() ==> -86400 <= (#[trigger] ps@[i]).1 <= 86400,
    ensures
        text_table(r@) == accumulate(text_pairs(ps@)),
        forall|i: int| 0 <= i < r@.len() ==> -total_bound() <= (#[trigger] r@[i]).1 <= total_bound(),
{
    let ghost pv = text_pairs(ps@);
    let mut tbl: Vec<(String, i128)> = Vec::new();
    let mut i: usize = 0;
    assert(pv.subrange(0, 0) =~= Seq::<(Seq<char>, int)>::empty());
    assert(text_table(tbl@) =~= Seq::<(Seq<char>, int)>::empty());
    while i < ps.len()
        invariant
            0 <= i <= ps@.len(),
            pv == text_pairs(ps@),
            forall|q: int| 0 <= q < ps@.len() ==> -86400 <= (#[trigger] ps@[q]).1 <= 86400,
            text_table(tbl@) == accumulate(pv.subrange(0, i as int)),
            forall|q: int| 0 <= q < tbl@.len() ==> -(i * 86400) <= (#[trigger] tbl@[q]).1 <= i * 86400,
        decreases ps@.len() - i,
    {
        let key = &ps[i].0;
        let secs = ps[i].1;
        let ghost t0 = text_table(tbl@);
        let ghost p = pv[i as int];
        assert(i * 86400 + 86400 <= total_bound()) by (nonlinear_arith)
            requires i < usize::MAX;
        let mut found = false;
        let mut j: usize = 0;
        while j < tbl.len()
            invariant
                0 <= j <= tbl@.len(),
                tbl@.len() == t0.len(),
                p == (key@, secs as int),
                -86400 <= secs <= 86400,
                i * 86400 + 86400 <= total_bound(),
                forall|q: int| 0 <= q < j ==> (#[trigger] tbl@[q]).0@ == t0[q].0
                    && tbl@[q].1 as int == (if t0[q].0 == p.0 { t0[q].1 + p.1 } else { t0[q].1 }),
                forall|q: int| j <= q < tbl@.len() ==> (#[trigger] tbl@[q]).0@ == t0[q].0 && tbl@[q].1 as int == t0[q].1,
                forall|q: int| 0 <= q < tbl@.len() ==> -(i * 86400 + 86400) <= (#[trigger] tbl@[q]).1 <= i * 86400 + 86400,
                forall|q: int| j <= q < tbl@.len() ==> -(i * 86400) <= (#[trigger] tbl@[q]).1 <= i * 86400,
                found <==> exists|q: int| 0 <= q < j && t0[q].0 == p.0,
            decreases tbl@.len() - j,
        {
            if tbl[j].0 == *key {
                let e = (key.clone(), tbl[j].1 + secs as i128);
                tbl.set(j, e);
                found = true;
            }
            j += 1;
        }
        if !found {
            tbl.push((key.clone(), secs as i128));
            assert(text_table(tbl@) =~= t0.push(p));
        } else {
            assert(text_table(tbl@) =~= t0.map_values(|e: (Seq<char>, int)| if e.0 == p.0 { (e.0, e.1 + p.1) } else { e }));
        }
        assert(pv.subrange(0, i + 1).drop_last() =~= pv.subrange(0, i as int));
        i += 1;
    }
    assert(pv.subrange(0, i as int) =~= pv);
    tbl
}

/// Sum of the seconds of the pairs whose key is `k`.
pub open spec fn key_total<K>(ps: Seq<(K, int)>, k: K) -> int
    decreases ps.len(),
{
    if ps.len() == 0 {
        0
    } else {
        key_total(ps.drop_last(), k) + if ps.last().0 == k { ps.last().1 } else { 0 }
    }
}

proof fn lemma_key_total_absent<K>(ps: Seq<(K, int)>, k: K)
    requires
        forall|q: int| 0 <= q < ps.len() ==> (#[trigger] ps[q]).0 != k,
    ensures
        key_total(ps, k) == 0,
    decreases ps.len(),
{
    if ps.len() > 0 {
        lemma_key_total_absent(ps.drop_last(), k);
    }
}

/// The table of `accumulate` holds each key once, every key of the pairs,
/// and for each key the sum of the seconds of its pairs.
pub proof fn lemma_accumulate<K>(ps: Seq<(K, int)>)
    ensures
        forall|i: int, j: int| 0 <= i < j < accumulate(ps).len() ==> (#[trigger] accumulate(ps)[i]).0 != (#[trigger] accumulate(ps)[j]).0,
        forall|i: int| 0 <= i < accumulate(ps).len() ==> (#[trigger] accumulate(ps)[i]).1 == key_total(ps, accumulate(ps)[i].0),
        forall|q: int| 0 <= q < ps.len() ==> exists|i: int| 0 <= i < accumulate(ps).len() && #[trigger] accumulate(ps)[i].0 == (#[trigger] ps[q]).0,
    decreases ps.len(),
{
    if ps.len() > 0 {
        let pre = ps.drop_last();
        let p = ps.last();
        let t0 = accumulate(pre);
        let t = accumulate(ps);
        lemma_accumulate(pre);
        if exists|i: int| 0 <= i < t0.len() && t0[i].0 == p.0 {
            assert(t.len() == t0.len());
            assert forall|i: int| 0 <= i < t.len() implies (#[trigger] t[i]).0 == t0[i].0 by {}
            assert forall|i: int| 0 <= i < t.len() implies (#[trigger] t[i]).1 == key_total(ps, t[i].0) by {}
            assert forall|q: int| 0 <= q < ps.len() implies exists|i: int| 0 <= i < t.len() && #[trigger] t[i].0 == (#[trigger] ps[q]).0 by {
                if q < pre.len() {
                    assert(ps[q] == pre[q]);
                    let i = choose|i: int| 0 <= i < t0.len() && t0[i].0 == pre[q].0;
                    assert(t[i].0 == ps[q].0);
                } else {
                    let i = choose|i: int| 0 <= i < t0.len() && t0[i].0 == p.0;
                    assert(t[i].0 == ps[q].0);
                }
            }
        } else {
            assert(t == t0.push(p));
            assert forall|q: int| 0 <= q < pre.len() implies (#[trigger] pre[q]).0 != p.0 by {
                if pre[q].0 == p.0 {
                    assert(exists|i: int| 0 <= i < t0.len() && #[trigger] t0[i].0 == (#[trigger] pre[q]).0);
                }
            }
            lemma_key_total_absent(pre, p.0);
            assert forall|i: int| 0 <= i < t.len() implies (#[trigger] t[i]).1 == key_total(ps, t[i].0) by {
                if i < t0.len() {
                    assert(t[i] == t0[i]);
                }
            }
            assert forall|q: int| 0 <= q < ps.len() implies exists|i: int| 0 <= i < t.len() && #[trigger] t[i].0 == (#[trigger] ps[q]).0 by {
                if q < pre.len() {
                    assert(ps[q] == pre[q]);
                    let i = choose|i: int| 0 <= i < t0.len() && t0[i].0 == pre[q].0;
                    assert(t[i] == t0[i]);
                } else {
                    assert(t[t0.len() as int].0 == ps[q].0);
                }
            }
        }
    }
}

proof fn lemma_sorted_prefix(keys: Seq<int>, a: Seq<usize>, b: Seq<usize>, k: int)
    requires
        is_sorted_order(keys, a),
        is_sorted_order(keys, b),
        0 <= k <= a.len(),
    ensures
        forall|q: int| 0 <= q < k ==> a[q] == b[q],
    decreases k,
{
    if k > 0 {
        lemma_sorted_prefix(keys, a, b, k - 1);
        let q = k - 1;
        let x = a[q] as int;
        let y = b[q] as int;
        if x != y {
            assert(listed(a, y));
            let l = choose|l: int| 0 <= l < a.len() && a[l] as int == y;
            assert(listed(b, x));
            let m = choose|m: int| 0 <= m < b.len() && b[m] as int == x;
            if l < q {
                assert(key_less(keys, b[l] as int, b[q] as int));
            }
            if m < q {
                assert(key_less(keys, a[m] as int, a[q] as int));
            }
            assert(key_less(keys, a[q] as int, a[l] as int));
            assert(key_less(keys, b[q] as int, b[m] as int));
        }
    }
}

/// There is one order that lists every index by key and then by index, so
/// the week and tag reports are each one text.
pub proof fn lemma_sorted_order_unique(keys: Seq<int>, a: Seq<usize>, b: Seq<usize>)
    requires
        is_sorted_order(keys, a),
        is_sorted_order(keys, b),
    ensures
        a == b,
{
    lemma_sorted_prefix(keys, a, b, a.len() as int);
    assert(a =~= b);
}

/// The tag report lists tags by total time, smallest first; tags of equal
/// total in the order in which they first appear.
pub proof fn lemma_tag_report_ascending(days: Seq<DayView>, order: Seq<usize>, k: int, l: int)
    requires
        tag_order(days, order),
        0 <= k < l < order.len(),
    ensures
        tag_table(days)[order[k] as int].1 <= tag_table(days)[order[l] as int].1,
        tag_table(days)[order[k] as int].1 == tag_table(days)[order[l] as int].1 ==> order[k] < order[l],
        tag_table(days)[order[k] as int].1 == key_total(tag_pairs(days), tag_table(days)[order[k] as int].0),
{
    let t = tag_table(days);
    assert(key_less(t.map_values(|e: (Seq<char>, int)| e.1), order[k] as int, order[l] as int));
    lemma_accumulate(tag_pairs(days));
    assert(order[k] < t.len());
}

/// The week report lists weeks by start, earliest first, each once, with
/// the time of all tasks of its days.
pub proof fn lemma_week_report_ascending(days: Seq<DayView>, order: Seq<usize>, k: int, l: int)
    requires
        week_order(days, order),
        0 <= k < l < order.len(),
    ensures
        week_table(days)[order[k] as int].0 < week_table(days)[order[l] as int].0,
        week_table(days)[order[k] as int].1 == key_total(week_pairs(days), week_table(days)[order[k] as int].0),
{
    let t = week_table(days);
    lemma_accumulate(week_pairs(days));
    assert(order[k] < t.len() && order[l] < t.len());
    assert(key_less(t.map_values(|e: (int, int)| e.0), order[k] as int, order[l] as int));
    assert(order[k] != order[l]);
}

} // verus!
