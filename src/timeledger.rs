//! The ledger: built from its document, checked once as it is built, and
//! summed on demand.
use crate::clock::{in_range, parse_instant, utc_instant, SECONDS_PER_DAY};
use crate::document::{BlockView, DocumentError, JsonTimeledger, TupleView, document, tuple_view, block_view};
use crate::model::{days_view, days_wf, day_wf, task_wf, texts, Day, DayView, Task, TaskView};
use crate::output::{LogLevel, Out};
use crate::reports::{
    accumulate_tags, accumulate_weeks, day_lines, day_report, int_table, line_text, seconds_of,
    sorted_order, tag_lines, tag_order, tag_pair_list, tag_report, tag_table, text_table,
    week_lines, week_order, week_pair_list, week_report, week_start, week_table, weeks_in_range,
};
use crate::validate::ledger_warning_list;
use crate::clock::{instant_date_text, weekday_number};
use crate::validate::{diagnostic_list, diagnostics, ledger_valid};
use vstd::prelude::*;
use vstd::string::StringExecFns;

verus! {

/// Why a ledger could not be built.
#[derive(Debug)]
pub enum LedgerError {
    /// The text is no JSON object, or its "timeledger" member is not a
    /// list of day blocks.
    Syntax(serde_json::Error),
    /// The document has no "timeledger" member.
    NoTimeledger,
    /// chrono reads no instant from this date followed by "T00:00:00Z".
    InvalidDate(String),
    /// A task of this date has fewer than three items.
    IncompleteTask(String),
    /// chrono reads no instant from this text, or it falls outside its day.
    InvalidTime(String),
}

/// A `LedgerError` as plain values.
pub enum Fault {
    Syntax,
    NoTimeledger,
    InvalidDate(Seq<char>),
    IncompleteTask(Seq<char>),
    InvalidTime(Seq<char>),
}

impl LedgerError {
    pub open spec fn fault(&self) -> Fault {
        match self {
            LedgerError::Syntax(_) => Fault::Syntax,
            LedgerError::NoTimeledger => Fault::NoTimeledger,
            LedgerError::InvalidDate(s) => Fault::InvalidDate(s@),
            LedgerError::IncompleteTask(s) => Fault::IncompleteTask(s@),
            LedgerError::InvalidTime(s) => Fault::InvalidTime(s@),
        }
    }
}

/// The instant that chrono reads from `text`.
pub open spec fn instant_of(text: Seq<char>) -> Option<int> {
    match utc_instant(text) {
        Some(t) => if in_range(t as int) { Some(t as int) } else { None },
        None => None,
    }
}

/// The instant that `text` names, where it falls within the day that
/// starts at `date`.
pub open spec fn instant_in_day(text: Seq<char>, date: int) -> Option<int> {
    match instant_of(text) {
        Some(t) => if date <= t < date + SECONDS_PER_DAY { Some(t) } else { None },
        None => None,
    }
}

/// "<date>T<time>:00Z".
pub open spec fn instant_text_of(date: Seq<char>, time: Seq<char>) -> Seq<char> {
    date + "T"@ + time + ":00Z"@
}

/// The task that a tuple of the day `date` (text `dt`) describes.
pub open spec fn task_of(dt: Seq<char>, date: int, tup: TupleView) -> Result<TaskView, Fault> {
    if tup.len() < 3 {
        Err(Fault::IncompleteTask(dt))
    } else {
        let st = instant_text_of(dt, tup[0]);
        let et = instant_text_of(dt, tup[1]);
        match instant_in_day(st, date) {
            None => Err(Fault::InvalidTime(st)),
            Some(s) => match instant_in_day(et, date) {
                None => Err(Fault::InvalidTime(et)),
                Some(e) => Ok(TaskView { start: s, end: e, description: tup[2], tags: tup.subrange(3, tup.len() as int) }),
            },
        }
    }
}

/// The tasks that the tuples describe, or the first fault among them.
pub open spec fn tasks_of(dt: Seq<char>, date: int, tups: Seq<TupleView>) -> Result<Seq<TaskView>, Fault>
    decreases tups.len(),
{
    if tups.len() == 0 {
        Ok(Seq::empty())
    } else {
        match tasks_of(dt, date, tups.drop_last()) {
            Err(f) => Err(f),
            Ok(ts) => match task_of(dt, date, tups.last()) {
                Err(f) => Err(f),
                Ok(t) => Ok(ts.push(t)),
            },
        }
    }
}

/// The day that a date and its tuples describe.
pub open spec fn day_of(e: (Seq<char>, Seq<TupleView>)) -> Result<DayView, Fault> {
    match instant_of(e.0 + "T00:00:00Z"@) {
        None => Err(Fault::InvalidDate(e.0)),
        Some(d) => match tasks_of(e.0, d, e.1) {
            Err(f) => Err(f),
            Ok(ts) => Ok(DayView { date: d, tasks: ts }),
        },
    }
}

/// The dates of all blocks, block after block.
pub open spec fn entries(blocks: Seq<BlockView>) -> Seq<(Seq<char>, Seq<TupleView>)>
    decreases blocks.len(),
{
    if blocks.len() == 0 {
        Seq::empty()
    } else {
        entries(blocks.drop_last()) + blocks.last()
    }
}

/// The days that the entries describe, or the first fault among them.
pub open spec fn days_of(es: Seq<(Seq<char>, Seq<TupleView>)>) -> Result<Seq<DayView>, Fault>
    decreases es.len(),
{
    if es.len() == 0 {
        Ok(Seq::empty())
    } else {
        match days_of(es.drop_last()) {
            Err(f) => Err(f),
            Ok(ds) => match day_of(es.last()) {
                Err(f) => Err(f),
                Ok(d) => Ok(ds.push(d)),
            },
        }
    }
}

/// The days that a ledger document describes, or why there are none.
pub open spec fn ledger_of(text: Seq<char>) -> Result<Seq<DayView>, Fault> {
    match document(text) {
        None => Err(Fault::Syntax),
        Some(None) => Err(Fault::NoTimeledger),
        Some(Some(None)) => Err(Fault::Syntax),
        Some(Some(Some(b))) => days_of(entries(b)),
    }
}

proof fn lemma_tasks_fault_sticks(dt: Seq<char>, date: int, tups: Seq<TupleView>, more: Seq<TupleView>)
    requires
        tasks_of(dt, date, tups) is Err,
    ensures
        tasks_of(dt, date, tups + more) == tasks_of(dt, date, tups),
    decreases more.len(),
{
    if more.len() == 0 {
        assert(tups + more =~= tups);
    } else {
        lemma_tasks_fault_sticks(dt, date, tups, more.drop_last());
        assert((tups + more).drop_last() =~= tups + more.drop_last());
    }
}

proof fn lemma_days_fault_sticks(es: Seq<(Seq<char>, Seq<TupleView>)>, more: Seq<(Seq<char>, Seq<TupleView>)>)
    requires
        days_of(es) is Err,
    ensures
        days_of(es + more) == days_of(es),
    decreases more.len(),
{
    if more.len() == 0 {
        assert(es + more =~= es);
    } else {
        lemma_days_fault_sticks(es, more.drop_last());
        assert((es + more).drop_last() =~= es + more.drop_last());
    }
}

proof fn lemma_tasks_wf(dt: Seq<char>, date: int, tups: Seq<TupleView>)
    requires
        tasks_of(dt, date, tups) is Ok,
    ensures
        forall|i: int| 0 <= i < tasks_of(dt, date, tups)->Ok_0.len()
            ==> #[trigger] task_wf(date, tasks_of(dt, date, tups)->Ok_0[i]),
    decreases tups.len(),
{
    if tups.len() > 0 {
        lemma_tasks_wf(dt, date, tups.drop_last());
        let ts = tasks_of(dt, date, tups.drop_last())->Ok_0;
        let all = tasks_of(dt, date, tups)->Ok_0;
        assert forall|i: int| 0 <= i < all.len() implies #[trigger] task_wf(date, all[i]) by {
            if i < ts.len() {
                assert(all[i] == ts[i]);
            }
        }
    }
}

proof fn lemma_days_wf(es: Seq<(Seq<char>, Seq<TupleView>)>)
    requires
        days_of(es) is Ok,
    ensures
        days_wf(days_of(es)->Ok_0),
    decreases es.len(),
{
    if es.len() > 0 {
        lemma_days_wf(es.drop_last());
        let e = es.last();
        let d = instant_of(e.0 + "T00:00:00Z"@)->Some_0;
        lemma_tasks_wf(e.0, d, e.1);
        let ds = days_of(es.drop_last())->Ok_0;
        let all = days_of(es)->Ok_0;
        assert forall|i: int| 0 <= i < all.len() implies #[trigger] day_wf(all[i]) by {
            if i < ds.len() {
                assert(all[i] == ds[i]);
            }
        }
    }
}

/// The text "<date>T<time>:00Z".
fn instant_string(date: &String, time: &String) -> (r: String)
    ensures
        r@ == instant_text_of(date@, time@),
{
    let mut s = date.clone();
    s.append("T");
    s.append(time.as_str());
    s.append(":00Z");
    s
}

/// The instant that `text` names, where it falls within the day that
/// starts at `date`.
fn read_instant_in_day(text: &String, date: i64) -> (r: Option<i64>)
    ensures
        r matches Some(t) ==> in_range(t as int),
        r is Some <==> instant_in_day(text@, date as int) is Some,
        r matches Some(t) ==> instant_in_day(text@, date as int) == Some(t as int),
{
    match parse_instant(text.as_str()) {
        Some(t) => {
            if date as i128 <= t as i128 && (t as i128) < date as i128 + SECONDS_PER_DAY as i128 {
                Some(t)
            } else {
                None
            }
        },
        None => None,
    }
}

/// The task that a tuple of the day `date` (text `dt`) describes.
fn build_task(dt: &String, date: i64, tup: &Vec<String>) -> (r: Result<Task, LedgerError>)
    ensures
        r matches Ok(t) ==> task_of(dt@, date as int, tuple_view(*tup)) == Ok::<TaskView, Fault>(t@),
        r matches Err(e) ==> task_of(dt@, date as int, tuple_view(*tup)) == Err::<TaskView, Fault>(e.fault()),
{
    let ghost tv = tuple_view(*tup);
    if tup.len() < 3 {
        return Err(LedgerError::IncompleteTask(dt.clone()));
    }
    let st = instant_string(dt, &tup[0]);
    let et = instant_string(dt, &tup[1]);
    assert(st@ == instant_text_of(dt@, tv[0]));
    assert(et@ == instant_text_of(dt@, tv[1]));
    let start = match read_instant_in_day(&st, date) {
        Some(t) => t,
        None => return Err(LedgerError::InvalidTime(st)),
    };
    let end = match read_instant_in_day(&et, date) {
        Some(t) => t,
        None => return Err(LedgerError::InvalidTime(et)),
    };
    let mut tags: Vec<String> = Vec::new();
    let mut k: usize = 3;
    while k < tup.len()
        invariant
            3 <= k <= tup@.len(),
            tv == tuple_view(*tup),
            texts(tags@) == tv.subrange(3, k as int),
        decreases tup@.len() - k,
    {
        let ghost before = texts(tags@);
        tags.push(tup[k].clone());
        assert(texts(tags@) =~= before.push(tv[k as int]));
        assert(tv.subrange(3, k + 1) =~= tv.subrange(3, k as int).push(tv[k as int]));
        k += 1;
    }
    Ok(Task { start, end, description: tup[2].clone(), tags })
}

/// The day that a date and its tuples describe.
fn build_day(dt: &String, tups: &Vec<Vec<String>>) -> (r: Result<Day, LedgerError>)
    ensures
        r matches Ok(d) ==> day_of((dt@, tups@.map_values(|t: Vec<String>| tuple_view(t)))) == Ok::<DayView, Fault>(d@),
        r matches Err(e) ==> day_of((dt@, tups@.map_values(|t: Vec<String>| tuple_view(t)))) == Err::<DayView, Fault>(e.fault()),
{
    let ghost tvs = tups@.map_values(|t: Vec<String>| tuple_view(t));
    let mut mt = dt.clone();
    mt.append("T00:00:00Z");
    let date = match parse_instant(mt.as_str()) {
        Some(d) => d,
        None => return Err(LedgerError::InvalidDate(dt.clone())),
    };
    assert(instant_of(dt@ + "T00:00:00Z"@) == Some(date as int));
    let mut tasks: Vec<Task> = Vec::new();
    let mut j: usize = 0;
    assert(tvs.subrange(0, 0) =~= Seq::<TupleView>::empty());
    assert(tasks@.map_values(|t: Task| t@) =~= Seq::<TaskView>::empty());
    while j < tups.len()
        invariant
            0 <= j <= tups@.len(),
            tvs == tups@.map_values(|t: Vec<String>| tuple_view(t)),
            instant_of(dt@ + "T00:00:00Z"@) == Some(date as int),
            tasks_of(dt@, date as int, tvs.subrange(0, j as int)) == Ok::<Seq<TaskView>, Fault>(tasks@.map_values(|t: Task| t@)),
        decreases tups@.len() - j,
    {
        assert(tvs.subrange(0, j + 1).drop_last() =~= tvs.subrange(0, j as int));
        assert(tvs.subrange(0, j + 1).last() == tuple_view(tups@[j as int]));
        match build_task(dt, date, &tups[j]) {
            Ok(t) => {
                let ghost before = tasks@.map_values(|t: Task| t@);
                tasks.push(t);
                assert(tasks@.map_values(|t: Task| t@) =~= before.push(t@));
            },
            Err(e) => {
                proof {
                    assert(tasks_of(dt@, date as int, tvs.subrange(0, j + 1)) == Err::<Seq<TaskView>, Fault>(e.fault()));
                    lemma_tasks_fault_sticks(dt@, date as int, tvs.subrange(0, j + 1), tvs.subrange(j + 1, tvs.len() as int));
                    assert(tvs.subrange(0, j + 1) + tvs.subrange(j + 1, tvs.len() as int) =~= tvs);
                    assert(tasks_of(dt@, date as int, tvs) == Err::<Seq<TaskView>, Fault>(e.fault()));
                    assert(day_of((dt@, tvs)) == Err::<DayView, Fault>(e.fault()));
                }
                return Err(e);
            },
        }
        j += 1;
    }
    assert(tvs.subrange(0, j as int) =~= tvs);
    let day = Day { date, tasks };
    assert(day@.tasks =~= tasks_of(dt@, date as int, tvs)->Ok_0);
    Ok(day)
}

/// A ledger: its days in the order the document lists them. Checked once,
/// when it is built; never changed after.
pub struct Timeledger<'a, T: Out> {
    out: &'a T,
    days: Vec<Day>,
}

impl<'a, T: Out> Timeledger<'a, T> {
    #[verifier::type_invariant]
    spec fn inv(&self) -> bool {
        days_wf(days_view(self.days@))
    }

    /// The ledger's days.
    pub closed spec fn view(&self) -> Seq<DayView> {
        days_view(self.days@)
    }

    /// Builds the ledger that a JSON document describes, checks it, and
    /// logs each diagnostic of the checks to `out` as a warning.
    pub fn from_json(out: &'a T, json: &String) -> (r: Result<Timeledger<'a, T>, LedgerError>)
        ensures
            r is Ok <==> ledger_of(json@) is Ok,
            r matches Ok(l) ==> ledger_of(json@) == Ok::<Seq<DayView>, Fault>(l.view()),
            r matches Err(e) ==> ledger_of(json@) == Err::<Seq<DayView>, Fault>(e.fault()),
    {
        let doc = match JsonTimeledger::new(json) {
            Ok(d) => d,
            Err(DocumentError::Syntax(e)) => return Err(LedgerError::Syntax(e)),
            Err(DocumentError::NoTimeledger) => return Err(LedgerError::NoTimeledger),
        };
        let ghost blocks = doc.view();
        let mut days: Vec<Day> = Vec::new();
        let mut bi: usize = 0;
        assert(entries(blocks.subrange(0, 0)) =~= Seq::<(Seq<char>, Seq<TupleView>)>::empty());
        assert(days_view(days@) =~= Seq::<DayView>::empty());
        while bi < doc.timeledger.len()
            invariant
                0 <= bi <= doc.timeledger@.len(),
                blocks == doc.view(),
                blocks == crate::document::blocks_view(doc.timeledger@),
                days_of(entries(blocks.subrange(0, bi as int))) == Ok::<Seq<DayView>, Fault>(days_view(days@)),
                document(json@) == Some(Some(Some(blocks))),
            decreases doc.timeledger@.len() - bi,
        {
            let block = &doc.timeledger[bi];
            let ghost bv = block_view(*block);
            let ghost pre = entries(blocks.subrange(0, bi as int));
            assert(blocks[bi as int] == bv);
            let mut ei: usize = 0;
            assert(pre + bv.subrange(0, 0) =~= pre);
            while ei < block.len()
                invariant
                    0 <= ei <= block@.len(),
                    bv == block_view(*block),
                    days_of(pre + bv.subrange(0, ei as int)) == Ok::<Seq<DayView>, Fault>(days_view(days@)),
                    pre == entries(blocks.subrange(0, bi as int)),
                    blocks == crate::document::blocks_view(doc.timeledger@),
                    0 <= bi < doc.timeledger@.len(),
                    blocks[bi as int] == bv,
                    document(json@) == Some(Some(Some(blocks))),
                decreases block@.len() - ei,
            {
                let ghost es = pre + bv.subrange(0, ei + 1);
                assert(es.drop_last() =~= pre + bv.subrange(0, ei as int));
                assert(es.last() == bv[ei as int]);
                match build_day(&block[ei].0, &block[ei].1) {
                    Ok(d) => {
                        let ghost before = days_view(days@);
                        days.push(d);
                        assert(days_view(days@) =~= before.push(d@));
                    },
                    Err(e) => {
                        proof {
                            let all = entries(blocks);
                            lemma_entries_prefix(blocks, bi as int, ei as int + 1);
                            lemma_days_fault_sticks(es, all.subrange(es.len() as int, all.len() as int));
                            assert(es + all.subrange(es.len() as int, all.len() as int) =~= all);
                        }
                        return Err(e);
                    },
                }
                ei += 1;
            }
            assert(blocks.subrange(0, bi + 1).drop_last() =~= blocks.subrange(0, bi as int));
            assert(bv.subrange(0, ei as int) =~= bv);
            bi += 1;
        }
        assert(blocks.subrange(0, bi as int) =~= blocks);
        proof { lemma_days_wf(entries(blocks)); }
        let diags = diagnostic_list(&days);
        let mut k: usize = 0;
        while k < diags.len()
            decreases diags@.len() - k,
        {
            out.log(LogLevel::Warn, diags[k].as_str());
            k += 1;
        }
        Ok(Timeledger { out, days })
    }

    /// Hours per day, one line per day in ledger order, between banners.
    pub fn report_hours_per_day(&self) -> (r: String)
        ensures
            r@ == day_report(self.view()),
    {
        proof { use_type_invariant(self); }
        let ghost dv = days_view(self.days@);
        let mut report = String::from_str("# ------------- #\n");
        report.append("# Hours per Day #\n");
        report.append("# ------------- #\n");
        let ghost head = report@;
        let mut k: usize = 0;
        assert(dv.subrange(0, 0) =~= Seq::<DayView>::empty());
        while k < self.days.len()
            invariant
                0 <= k <= self.days@.len(),
                dv == days_view(self.days@),
                days_wf(dv),
                report@ == head + day_lines(dv.subrange(0, k as int)),
            decreases self.days@.len() - k,
        {
            let day = &self.days[k];
            assert(day_wf(dv[k as int]));
            assert forall|i: int| 0 <= i < day.tasks@.len() implies #[trigger] task_wf(day.date as int, day.tasks@[i]@) by {
                assert(dv[k as int].tasks[i] == day.tasks@[i]@);
            }
            let secs = seconds_of(day.date, &day.tasks);
            let label = instant_date_text(day.date);
            let line = line_text(label.as_str(), secs);
            report.append(line.as_str());
            assert(dv.subrange(0, k + 1).drop_last() =~= dv.subrange(0, k as int));
            k += 1;
        }
        assert(dv.subrange(0, k as int) =~= dv);
        report.append("# ------------- #\n");
        report
    }

    /// Whether every day's week starts at an instant that chrono
    /// represents, which the week report needs.
    pub fn weeks_representable(&self) -> (r: bool)
        ensures
            r == weeks_in_range(self.view()),
    {
        proof { use_type_invariant(self); }
        let ghost dv = days_view(self.days@);
        let mut k: usize = 0;
        while k < self.days.len()
            invariant
                0 <= k <= self.days@.len(),
                dv == days_view(self.days@),
                days_wf(dv),
                forall|i: int| 0 <= i < k ==> #[trigger] in_range(week_start(dv[i].date)),
            decreases self.days@.len() - k,
        {
            let date = self.days[k].date;
            assert(day_wf(dv[k as int]));
            let w = date as i128 - (weekday_number(date) as i128 - 1) * 86400;
            if w < crate::clock::MIN_INSTANT as i128 {
                assert(!in_range(week_start(dv[k as int].date)));
                return false;
            }
            k += 1;
        }
        true
    }

    /// Hours per week (weeks start on Monday), one line per week in order of
    /// week start, between banners.
    pub fn report_hours_per_week(&self) -> (r: String)
        requires
            weeks_in_range(self.view()),
        ensures
            exists|order: Seq<usize>| week_order(self.view(), order) && r@ == week_report(self.view(), order),
    {
        proof { use_type_invariant(self); }
        let ghost dv = days_view(self.days@);
        let ps = week_pair_list(&self.days);
        let tbl = accumulate_weeks(&ps);
        let ghost tv = int_table(tbl@);
        assert(tv == week_table(dv));
        let mut keys: Vec<i128> = Vec::new();
        let mut i: usize = 0;
        while i < tbl.len()
            invariant
                0 <= i <= tbl@.len(),
                keys@.len() == i,
                forall|q: int| 0 <= q < i ==> #[trigger] keys@[q] == tbl@[q].0 as i128,
            decreases tbl@.len() - i,
        {
            keys.push(tbl[i].0 as i128);
            i += 1;
        }
        assert(keys@.map_values(|k: i128| k as int) =~= tv.map_values(|e: (int, int)| e.0));
        let order = sorted_order(&keys);
        let mut report = String::from_str("# -------------- #\n");
        report.append("# Hours per Week #\n");
        report.append("# -------------- #\n");
        let ghost head = report@;
        let mut k: usize = 0;
        assert(order@.subrange(0, 0) =~= Seq::<usize>::empty());
        while k < order.len()
            invariant
                0 <= k <= order@.len(),
                order@.len() == tbl@.len(),
                forall|q: int| 0 <= q < order@.len() ==> #[trigger] order@[q] < tbl@.len(),
                forall|q: int| 0 <= q < tbl@.len() ==> crate::clock::in_range((#[trigger] tbl@[q]).0 as int)
                    && -crate::reports::total_bound() <= tbl@[q].1 <= crate::reports::total_bound(),
                tv == int_table(tbl@),
                report@ == head + week_lines(tv, order@.subrange(0, k as int)),
            decreases order@.len() - k,
        {
            let q = order[k];
            assert(order@[k as int] < tbl@.len());
            let label = instant_date_text(tbl[q].0);
            let line = line_text(label.as_str(), tbl[q].1);
            report.append(line.as_str());
            assert(order@.subrange(0, k + 1).drop_last() =~= order@.subrange(0, k as int));
            k += 1;
        }
        assert(order@.subrange(0, k as int) =~= order@);
        report.append("# -------------- #\n");
        assert(week_order(dv, order@) && report@ == week_report(dv, order@));
        report
    }

    /// Hours per tag (a task counts in full for each of its tags), one line
    /// per tag by increasing total, between banners; tags of equal total
    /// keep the order in which they first appear.
    pub fn report_hours_per_tag(&self) -> (r: String)
        ensures
            exists|order: Seq<usize>| tag_order(self.view(), order) && r@ == tag_report(self.view(), order),
    {
        proof { use_type_invariant(self); }
        let ghost dv = days_view(self.days@);
        let ps = tag_pair_list(&self.days);
        let tbl = accumulate_tags(&ps);
        let ghost tv = text_table(tbl@);
        assert(tv == tag_table(dv));
        let mut keys: Vec<i128> = Vec::new();
        let mut i: usize = 0;
        while i < tbl.len()
            invariant
                0 <= i <= tbl@.len(),
                keys@.len() == i,
                forall|q: int| 0 <= q < i ==> #[trigger] keys@[q] == tbl@[q].1,
            decreases tbl@.len() - i,
        {
            keys.push(tbl[i].1);
            i += 1;
        }
        assert(keys@.map_values(|k: i128| k as int) =~= tv.map_values(|e: (Seq<char>, int)| e.1));
        let order = sorted_order(&keys);
        let mut report = String::from_str("# ------------- #\n");
        report.append("# Hours per Tag #\n");
        report.append("# ------------- #\n");
        let ghost head = report@;
        let mut k: usize = 0;
        assert(order@.subrange(0, 0) =~= Seq::<usize>::empty());
        while k < order.len()
            invariant
                0 <= k <= order@.len(),
                order@.len() == tbl@.len(),
                forall|q: int| 0 <= q < order@.len() ==> #[trigger] order@[q] < tbl@.len(),
                forall|q: int| 0 <= q < tbl@.len() ==>
                    -crate::reports::total_bound() <= (#[trigger] tbl@[q]).1 <= crate::reports::total_bound(),
                tv == text_table(tbl@),
                report@ == head + tag_lines(tv, order@.subrange(0, k as int)),
            decreases order@.len() - k,
        {
            let q = order[k];
            assert(order@[k as int] < tbl@.len());
            let line = line_text(tbl[q].0.as_str(), tbl[q].1);
            report.append(line.as_str());
            assert(order@.subrange(0, k + 1).drop_last() =~= order@.subrange(0, k as int));
            k += 1;
        }
        assert(order@.subrange(0, k as int) =~= order@);
        report.append("# ------------- #\n");
        assert(dv == self.view());
        assert(tag_order(self.view(), order@) && report@ == tag_report(self.view(), order@));
        report
    }

    /// What the checks of this ledger report: its warnings in the order
    /// found, then the summary message where there is any.
    pub fn diagnostics(&self) -> (r: Vec<String>)
        ensures
            texts(r@) == diagnostics(self.view()),
    {
        proof { use_type_invariant(self); }
        diagnostic_list(&self.days)
    }

    /// Whether the checks found no issue.
    pub fn is_valid(&self) -> (r: bool)
        ensures
            r == ledger_valid(self.view()),
    {
        proof { use_type_invariant(self); }
        let w = ledger_warning_list(&self.days);
        w.len() == 0
    }
}

/// `entries` of a prefix of blocks, then a prefix of the next block, is a
/// prefix of `entries` of all blocks.
proof fn lemma_entries_prefix(blocks: Seq<BlockView>, bi: int, ei: int)
    requires
        0 <= bi < blocks.len(),
        0 <= ei <= blocks[bi].len(),
    ensures
        entries(blocks.subrange(0, bi)) + blocks[bi].subrange(0, ei) =~=
            entries(blocks).subrange(0, entries(blocks.subrange(0, bi)).len() + ei),
        entries(blocks.subrange(0, bi)).len() + ei <= entries(blocks).len(),
    decreases blocks.len(),
{
    let n = blocks.len() as int;
    assert(blocks.subrange(0, n) =~= blocks);
    if bi == n - 1 {
        assert(blocks.drop_last() =~= blocks.subrange(0, bi));
    } else {
        lemma_entries_prefix(blocks.drop_last(), bi, ei);
        assert(blocks.drop_last().subrange(0, bi) =~= blocks.subrange(0, bi));
    }
}

} // verus!
