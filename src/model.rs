//! Tasks and days, with their mathematical views.
use crate::clock::{in_range, utc_text, SECONDS_PER_DAY};
use vstd::prelude::*;

verus! {

/// A task: from `start` to `end` (seconds since the epoch, UTC), with a
/// description and tags.
pub struct Task {
    pub start: i64,
    pub end: i64,
    pub description: String,
    pub tags: Vec<String>,
}

/// A calendar day, given by its midnight instant, and its tasks in the
/// order in which the ledger lists them.
pub struct Day {
    pub date: i64,
    pub tasks: Vec<Task>,
}

pub struct TaskView {
    pub start: int,
    pub end: int,
    pub description: Seq<char>,
    pub tags: Seq<Seq<char>>,
}

pub struct DayView {
    pub date: int,
    pub tasks: Seq<TaskView>,
}

pub open spec fn texts(v: Seq<String>) -> Seq<Seq<char>> {
    v.map_values(|s: String| s@)
}

impl View for Task {
    type V = TaskView;

    open spec fn view(&self) -> TaskView {
        TaskView {
            start: self.start as int,
            end: self.end as int,
            description: self.description@,
            tags: texts(self.tags@),
        }
    }
}

impl View for Day {
    type V = DayView;

    open spec fn view(&self) -> DayView {
        DayView { date: self.date as int, tasks: self.tasks@.map_values(|t: Task| t@) }
    }
}

pub open spec fn days_view(days: Seq<Day>) -> Seq<DayView> {
    days.map_values(|d: Day| d@)
}

/// An instant of the day that starts at `date`.
pub open spec fn within_day(date: int, t: int) -> bool {
    in_range(t) && date <= t < date + SECONDS_PER_DAY
}

/// A task of the day that starts at `date`.
pub open spec fn task_wf(date: int, t: TaskView) -> bool {
    within_day(date, t.start) && within_day(date, t.end)
}

/// A day whose date chrono represents and whose tasks fall within it.
pub open spec fn day_wf(d: DayView) -> bool {
    &&& in_range(d.date)
    &&& forall|i: int| 0 <= i < d.tasks.len() ==> #[trigger] task_wf(d.date, d.tasks[i])
}

pub open spec fn days_wf(days: Seq<DayView>) -> bool {
    forall|i: int| 0 <= i < days.len() ==> #[trigger] day_wf(days[i])
}

/// How a task reads in a diagnostic: "<start> - <end>: <description>".
pub open spec fn task_text(t: TaskView) -> Seq<char> {
    utc_text(t.start) + " - "@ + utc_text(t.end) + ": "@ + t.description
}

/// How long a task lasts, in seconds.
pub open spec fn duration(t: TaskView) -> int {
    t.end - t.start
}

} // verus!
