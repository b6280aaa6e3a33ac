//! The spreadsheet import pipeline: parse a tab-separated exercise log,
//! group the surviving rows by calendar date, and reconcile each day into
//! the activity hierarchy as one anchor event with nested per-exercise
//! events.

use vstd::prelude::*;

use crate::activities::{
    foc_post, has_key, key_idx, lemma_has_key_prefix, lemma_key_idx, lemma_key_idx_frame,
    matches_scope, wf_rows, ActivitiesRepo, Activity,
};
use crate::activity_events::{ActivityEvent, ActivityEventsRepo};
use crate::date::{date_seq, parse_date, parse_date_spec, Date};
use crate::store::{lemma_filter_push, lemma_prefix_trans, StoreError};
use crate::text::{lemma_norm_trim, norm, str_eq};
use crate::tsv::{fields_of, fields_spec, lemma_split_len, split_char, split_str};
use crate::users::User;

verus! {

/// One surviving spreadsheet row: a parseable date, the exercise name, and
/// the free-text rep and set payloads.
#[derive(Debug)]
pub struct Record {
    pub date: Date,
    pub exercise: String,
    pub reps: String,
    pub sets: String,
}

/// The mathematical image of a record.
pub struct RecordV {
    pub date: Date,
    pub exercise: Seq<char>,
    pub reps: Seq<char>,
    pub sets: Seq<char>,
}

impl View for Record {
    type V = RecordV;

    open spec fn view(&self) -> RecordV {
        RecordV {
            date: self.date,
            exercise: self.exercise@,
            reps: self.reps@,
            sets: self.sets@,
        }
    }
}

impl Record {
    /// A field-for-field copy of the row.
    pub fn duplicate(&self) -> (r: Record)
        ensures
            r == *self,
    {
        Record {
            date: self.date,
            exercise: self.exercise.clone(),
            reps: self.reps.clone(),
            sets: self.sets.clone(),
        }
    }
}

pub open spec fn recs_v(rs: Seq<Record>) -> Seq<RecordV> {
    rs.map_values(|r: Record| r@)
}

/// Index of the first header cell equal to `name`, or -1.
pub open spec fn index_of_field(hs: Seq<Seq<char>>, name: Seq<char>) -> int
    decreases hs.len(),
{
    if hs.len() == 0 {
        -1
    } else if hs[0] == name {
        0
    } else {
        let r = index_of_field(hs.drop_first(), name);
        if r < 0 {
            -1
        } else {
            r + 1
        }
    }
}

proof fn lemma_index_of_at(hs: Seq<Seq<char>>, name: Seq<char>, m: int)
    requires
        0 <= m <= hs.len(),
        forall|k: int| 0 <= k < m ==> hs[k] != name,
        m < hs.len() ==> hs[m] == name,
    ensures
        m == hs.len() ==> index_of_field(hs, name) == -1,
        m < hs.len() ==> index_of_field(hs, name) == m,
    decreases m,
{
    if m > 0 {
        let t = hs.drop_first();
        assert(forall|k: int| 0 <= k < m - 1 ==> t[k] != name);
        lemma_index_of_at(t, name, m - 1);
    }
}

/// Find a header cell by name.
fn find_field(header: &Vec<String>, name: &str) -> (r: Option<usize>)
    ensures
        ({
            let hv = header@.map_values(|f: String| f@);
            &&& (r is Some <==> index_of_field(hv, name@) >= 0)
            &&& (r matches Some(i) ==> i as int == index_of_field(hv, name@) && i < header@.len())
        }),
{
    let ghost hv = header@.map_values(|f: String| f@);
    let n = header.len();
    let mut i: usize = 0;
    while i < n
        invariant
            i <= n,
            n == header@.len(),
            hv == header@.map_values(|f: String| f@),
            forall|k: int| 0 <= k < i ==> hv[k] != name@,
        decreases n - i,
    {
        if str_eq(header[i].as_str(), name) {
            proof {
                assert(hv[i as int] == name@);
                lemma_index_of_at(hv, name@, i as int);
            }
            return Some(i);
        }
        i = i + 1;
    }
    proof {
        lemma_index_of_at(hv, name@, n as int);
    }
    None
}

/// What one data line contributes: a record exactly when the line has as
/// many fields as the header, all four named columns exist, and its date
/// field parses.
pub open spec fn row_record(hs: Seq<Seq<char>>, line: Seq<char>) -> Option<RecordV> {
    let fs = fields_spec(line);
    let di = index_of_field(hs, "Date"@);
    let ei = index_of_field(hs, "Exercise"@);
    let ri = index_of_field(hs, "Reps"@);
    let si = index_of_field(hs, "Sets"@);
    if di >= 0 && ei >= 0 && ri >= 0 && si >= 0 && fs.len() == hs.len() {
        match parse_date_spec(fs[di]) {
            Some(d) => Some(RecordV { date: d, exercise: fs[ei], reps: fs[ri], sets: fs[si] }),
            None => None,
        }
    } else {
        None
    }
}

/// The records of a sequence of data lines, in input order.
pub open spec fn rows_of(hs: Seq<Seq<char>>, lines: Seq<Seq<char>>) -> Seq<RecordV>
    decreases lines.len(),
{
    if lines.len() == 0 {
        Seq::empty()
    } else {
        rows_of(hs, lines.drop_last()) + match row_record(hs, lines.last()) {
            Some(r) => seq![r],
            None => Seq::<RecordV>::empty(),
        }
    }
}

/// The records of a whole blob: the first line is the header, every later
/// line a candidate row.
pub open spec fn parse_rows(text: Seq<char>) -> Seq<RecordV> {
    let lines = split_char(text, '\n');
    rows_of(fields_spec(lines[0]), lines.subrange(1, lines.len() as int))
}

proof fn lemma_rows_of_none(hs: Seq<Seq<char>>, lines: Seq<Seq<char>>)
    requires
        index_of_field(hs, "Date"@) < 0 || index_of_field(hs, "Exercise"@) < 0
            || index_of_field(hs, "Reps"@) < 0 || index_of_field(hs, "Sets"@) < 0,
    ensures
        rows_of(hs, lines) == Seq::<RecordV>::empty(),
    decreases lines.len(),
{
    if lines.len() > 0 {
        lemma_rows_of_none(hs, lines.drop_last());
        assert(rows_of(hs, lines) =~= Seq::<RecordV>::empty());
    }
}

/// Every record a blob yields carries a well-formed date.
pub proof fn lemma_rows_of_wf(hs: Seq<Seq<char>>, lines: Seq<Seq<char>>)
    ensures
        forall|i: int|
            0 <= i < rows_of(hs, lines).len() ==> (#[trigger] rows_of(hs, lines)[i]).date.wf(),
    decreases lines.len(),
{
    if lines.len() > 0 {
        lemma_rows_of_wf(hs, lines.drop_last());
        let front = rows_of(hs, lines.drop_last());
        assert forall|i: int|
            0 <= i < rows_of(hs, lines).len() implies (#[trigger] rows_of(hs, lines)[i]).date.wf()
        by {
            if i < front.len() {
                assert(rows_of(hs, lines)[i] == front[i]);
            }
        }
    }
}

/// A parsed spreadsheet: the rows that survived structural and date
/// filtering, in input order.
pub struct ParsedCsv {
    pub records: Vec<Record>,
}

impl ParsedCsv {
    /// Parse a raw blob under the tab-separated grammar.
    pub fn from(text: &str) -> (r: ParsedCsv)
        ensures
            recs_v(r.records@) == parse_rows(text@),
    {
        let ghost lines_v = split_char(text@, '\n');
        proof {
            lemma_split_len(text@, '\n');
        }
        let lines = split_str(text, '\n');
        proof {
            assert(lines@.map_values(|t: &str| t@)[0] == lines@[0]@);
        }
        let header = fields_of(lines[0]);
        let ghost hv = fields_spec(lines_v[0]);
        let di_o = find_field(&header, "Date");
        let ei_o = find_field(&header, "Exercise");
        let ri_o = find_field(&header, "Reps");
        let si_o = find_field(&header, "Sets");
        let mut records: Vec<Record> = Vec::new();
        match (di_o, ei_o, ri_o, si_o) {
            (Some(di), Some(ei), Some(ri), Some(si)) => {
                let n = lines.len();
                let mut i: usize = 1;
                proof {
                    assert(lines_v.subrange(1, 1) =~= Seq::<Seq<char>>::empty());
                    assert(recs_v(records@) =~= rows_of(hv, lines_v.subrange(1, 1)));
                }
                while i < n
                    invariant
                        1 <= i <= n,
                        n == lines@.len(),
                        lines@.map_values(|t: &str| t@) == lines_v,
                        lines_v == split_char(text@, '\n'),
                        hv == fields_spec(lines_v[0]),
                        hv == header@.map_values(|f: String| f@),
                        di as int == index_of_field(hv, "Date"@),
                        ei as int == index_of_field(hv, "Exercise"@),
                        ri as int == index_of_field(hv, "Reps"@),
                        si as int == index_of_field(hv, "Sets"@),
                        di < header@.len(),
                        ei < header@.len(),
                        ri < header@.len(),
                        si < header@.len(),
                        recs_v(records@) == rows_of(hv, lines_v.subrange(1, i as int)),
                    decreases n - i,
                {
                    let ghost line_v = lines_v[i as int];
                    proof {
                        assert(lines@.map_values(|t: &str| t@)[i as int] == lines@[i as int]@);
                    }
                    let fs = fields_of(lines[i]);
                    let ghost fsv = fields_spec(line_v);
                    if fs.len() == header.len() {
                        proof {
                            assert(fs@.map_values(|f: String| f@).len() == fsv.len());
                            assert(fs@.map_values(|f: String| f@)[di as int] == fs@[di as int]@);
                        }
                        match parse_date(fs[di].as_str()) {
                            Some(d) => {
                                let rec = Record {
                                    date: d,
                                    exercise: fs[ei].clone(),
                                    reps: fs[ri].clone(),
                                    sets: fs[si].clone(),
                                };
                                proof {
                                    assert(fs@.map_values(|f: String| f@)[ei as int] == fs@[
                                        ei as int]@);
                                    assert(fs@.map_values(|f: String| f@)[ri as int] == fs@[
                                        ri as int]@);
                                    assert(fs@.map_values(|f: String| f@)[si as int] == fs@[
                                        si as int]@);
                                    assert(row_record(hv, line_v) == Some(rec@));
                                    assert(recs_v(records@.push(rec)) =~= recs_v(
                                        records@,
                                    ).push(rec@));
                                }
                                records.push(rec);
                            },
                            None => {
                                proof {
                                    assert(row_record(hv, line_v) is None);
                                }
                            },
                        }
                    } else {
                        proof {
                            assert(fs@.map_values(|f: String| f@).len() == fsv.len());
                            assert(row_record(hv, line_v) is None);
                        }
                    }
                    proof {
                        let pre = lines_v.subrange(1, i as int);
                        let cur = lines_v.subrange(1, i as int + 1);
                        assert(cur.drop_last() =~= pre);
                        assert(cur.last() == line_v);
                    }
                    i = i + 1;
                }
                proof {
                    assert(lines_v.subrange(1, n as int) =~= lines_v.subrange(
                        1,
                        lines_v.len() as int,
                    ));
                }
            },
            _ => {
                proof {
                    lemma_rows_of_none(hv, lines_v.subrange(1, lines_v.len() as int));
                    assert(recs_v(records@) =~= Seq::<RecordV>::empty());
                }
            },
        }
        ParsedCsv { records }
    }

    /// The surviving rows, in input order.
    pub fn rows(self) -> (r: Vec<Record>)
        ensures
            r@ == self.records@,
    {
        self.records
    }
}

/// The rows of one calendar date, in input order.
#[derive(Debug)]
pub struct DayGroup {
    pub date: Date,
    pub records: Vec<Record>,
}

/// Whether a record carries the date `d`.
pub open spec fn date_pred(d: Date) -> spec_fn(Record) -> bool {
    |x: Record| x.date == d
}

/// Whether a record image carries the date `d`.
pub open spec fn date_pred_v(d: Date) -> spec_fn(RecordV) -> bool {
    |x: RecordV| x.date == d
}

/// The distinct dates of a sequence of records, in first-appearance order.
pub open spec fn dates_of(rs: Seq<Record>) -> Seq<Date>
    decreases rs.len(),
{
    if rs.len() == 0 {
        Seq::empty()
    } else {
        let front = dates_of(rs.drop_last());
        if front.contains(rs.last().date) {
            front
        } else {
            front.push(rs.last().date)
        }
    }
}

/// The distinct dates of a sequence of record images.
pub open spec fn dates_of_v(rs: Seq<RecordV>) -> Seq<Date>
    decreases rs.len(),
{
    if rs.len() == 0 {
        Seq::empty()
    } else {
        let front = dates_of_v(rs.drop_last());
        if front.contains(rs.last().date) {
            front
        } else {
            front.push(rs.last().date)
        }
    }
}

/// The distinct dates hold no repeats, and are exactly the dates the
/// records carry.
pub proof fn lemma_dates_of(rs: Seq<Record>)
    ensures
        forall|i: int, j: int|
            0 <= i < j < dates_of(rs).len() ==> #[trigger] dates_of(rs)[i] != #[trigger] dates_of(
                rs,
            )[j],
        forall|i: int|
            #![trigger dates_of(rs)[i]]
            0 <= i < dates_of(rs).len() ==> exists|k: int|
                0 <= k < rs.len() && (#[trigger] rs[k]).date == dates_of(rs)[i],
        forall|k: int| 0 <= k < rs.len() ==> dates_of(rs).contains((#[trigger] rs[k]).date),
    decreases rs.len(),
{
    if rs.len() > 0 {
        lemma_dates_of(rs.drop_last());
        let front = dates_of(rs.drop_last());
        assert forall|i: int|
            #![trigger dates_of(rs)[i]]
            0 <= i < dates_of(rs).len() implies exists|k: int|
            0 <= k < rs.len() && (#[trigger] rs[k]).date == dates_of(rs)[i] by {
            if i < front.len() {
                let k = choose|k: int|
                    0 <= k < rs.drop_last().len() && (#[trigger] rs.drop_last()[k]).date
                        == front[i];
                assert(rs[k].date == dates_of(rs)[i]);
            } else {
                assert(rs[rs.len() - 1].date == dates_of(rs)[i]);
            }
        }
        assert forall|k: int| 0 <= k < rs.len() implies dates_of(rs).contains(
            (#[trigger] rs[k]).date,
        ) by {
            if k < rs.len() - 1 {
                assert(rs.drop_last()[k] == rs[k]);
                assert(front.contains(rs[k].date));
                let i = choose|i: int| 0 <= i < front.len() && front[i] == rs[k].date;
                assert(dates_of(rs)[i] == rs[k].date);
            } else {
                if front.contains(rs.last().date) {
                    let i = choose|i: int|
                        0 <= i < front.len() && front[i] == rs.last().date;
                    assert(dates_of(rs)[i] == rs[k].date);
                } else {
                    assert(dates_of(rs).last() == rs[k].date);
                }
            }
        }
    }
}

/// Grouping commutes with taking record images.
proof fn lemma_group_v(rs: Seq<Record>, d: Date)
    ensures
        dates_of(rs) == dates_of_v(recs_v(rs)),
        recs_v(rs.filter(date_pred(d))) == recs_v(rs).filter(date_pred_v(d)),
    decreases rs.len(),
{
    reveal(Seq::filter);
    if rs.len() == 0 {
        assert(recs_v(rs) =~= Seq::<RecordV>::empty());
        assert(recs_v(rs.filter(date_pred(d))) =~= recs_v(rs).filter(date_pred_v(d)));
    } else {
        lemma_group_v(rs.drop_last(), d);
        assert(recs_v(rs).drop_last() =~= recs_v(rs.drop_last()));
        assert(recs_v(rs).last() == rs.last()@);
        if date_pred(d)(rs.last()) {
            assert(recs_v(rs.filter(date_pred(d))) =~= recs_v(
                rs.drop_last().filter(date_pred(d)),
            ).push(rs.last()@));
        } else {
            assert(recs_v(rs.filter(date_pred(d))) =~= recs_v(
                rs.drop_last().filter(date_pred(d)),
            ));
        }
    }
}

fn date_in(dates: &Vec<Date>, d: Date) -> (r: bool)
    ensures
        r == dates@.contains(d),
{
    let n = dates.len();
    let mut i: usize = 0;
    while i < n
        invariant
            i <= n,
            n == dates@.len(),
            forall|j: int| 0 <= j < i ==> dates@[j] != d,
        decreases n - i,
    {
        if dates[i] == d {
            proof {
                assert(dates@[i as int] == d);
            }
            return true;
        }
        i = i + 1;
    }
    false
}

impl ParsedCsv {
    /// Group the surviving rows by calendar date: one group per distinct
    /// date, in first-appearance order, each group nonempty and holding its
    /// rows in input order. A row without a parseable date never reaches
    /// this point, so no group holds one.
    pub fn days(self) -> (r: Vec<DayGroup>)
        ensures
            r@.len() == dates_of(self.records@).len(),
            forall|i: int|
                0 <= i < r@.len() ==> (#[trigger] r@[i]).date == dates_of(self.records@)[i],
            forall|i: int|
                0 <= i < r@.len() ==> (#[trigger] r@[i]).records@ == self.records@.filter(
                    date_pred(r@[i].date),
                ),
            forall|i: int, j: int|
                0 <= i < j < r@.len() ==> (#[trigger] r@[i]).date != (#[trigger] r@[j]).date,
            forall|i: int| 0 <= i < r@.len() ==> (#[trigger] r@[i]).records@.len() >= 1,
    {
        broadcast use vstd::seq_lib::group_filter_ensures;

        let rs = self.records;
        let n = rs.len();
        let mut dates: Vec<Date> = Vec::new();
        let mut k: usize = 0;
        proof {
            assert(rs@.subrange(0, 0) =~= Seq::<Record>::empty());
        }
        while k < n
            invariant
                k <= n,
                n == rs@.len(),
                dates@ == dates_of(rs@.subrange(0, k as int)),
            decreases n - k,
        {
            proof {
                let pre = rs@.subrange(0, k as int);
                let cur = rs@.subrange(0, k as int + 1);
                assert(cur.drop_last() =~= pre);
                assert(cur.last() == rs@[k as int]);
            }
            if !date_in(&dates, rs[k].date) {
                let d = rs[k].date;
                dates.push(d);
            }
            k = k + 1;
        }
        proof {
            assert(rs@.subrange(0, n as int) =~= rs@);
        }
        let m = dates.len();
        let mut groups: Vec<DayGroup> = Vec::new();
        let mut gi: usize = 0;
        while gi < m
            invariant
                gi <= m,
                m == dates@.len(),
                n == rs@.len(),
                dates@ == dates_of(rs@),
                groups@.len() == gi,
                forall|i: int| 0 <= i < gi ==> (#[trigger] groups@[i]).date == dates@[i],
                forall|i: int|
                    0 <= i < gi ==> (#[trigger] groups@[i]).records@ == rs@.filter(
                        date_pred(groups@[i].date),
                    ),
            decreases m - gi,
        {
            let d = dates[gi];
            let mut recs: Vec<Record> = Vec::new();
            let mut k2: usize = 0;
            proof {
                assert(rs@.subrange(0, 0) =~= Seq::<Record>::empty());
                assert(recs@ =~= rs@.subrange(0, 0).filter(date_pred(d)));
            }
            while k2 < n
                invariant
                    k2 <= n,
                    n == rs@.len(),
                    recs@ == rs@.subrange(0, k2 as int).filter(date_pred(d)),
                decreases n - k2,
            {
                proof {
                    let pre = rs@.subrange(0, k2 as int);
                    let cur = rs@.subrange(0, k2 as int + 1);
                    assert(cur =~= pre.push(rs@[k2 as int]));
                    lemma_filter_push(pre, date_pred(d), rs@[k2 as int]);
                    assert(date_pred(d)(rs@[k2 as int]) == (rs@[k2 as int].date == d));
                }
                if rs[k2].date == d {
                    recs.push(rs[k2].duplicate());
                }
                k2 = k2 + 1;
            }
            proof {
                assert(rs@.subrange(0, n as int) =~= rs@);
            }
            groups.push(DayGroup { date: d, records: recs });
            gi = gi + 1;
        }
        proof {
            lemma_dates_of(rs@);
            assert forall|i: int| 0 <= i < groups@.len() implies (
            #[trigger] groups@[i]).records@.len() >= 1 by {
                let k = choose|k: int|
                    0 <= k < rs@.len() && (#[trigger] rs@[k]).date == dates_of(rs@)[i];
                assert(date_pred(groups@[i].date)(rs@[k]));
                assert(rs@.filter(date_pred(groups@[i].date)).contains(rs@[k]));
            }
        }
        groups
    }
}

/// The normalized name every day's umbrella activity carries.
pub open spec fn workout_key() -> Seq<char> {
    norm("Workout"@)
}

/// The user's umbrella activity row.
pub open spec fn workout_row(rows: Seq<Activity>, user_id: i32) -> Activity {
    rows[key_idx(rows, user_id, None, workout_key())]
}

/// The mathematical image of an event row.
pub struct EventV {
    pub id: int,
    pub activity_id: int,
    pub notes: Seq<char>,
    pub parent_id: Option<int>,
}

pub open spec fn ev_v(e: ActivityEvent) -> EventV {
    EventV {
        id: e.id as int,
        activity_id: e.activity_id as int,
        notes: e.notes@,
        parent_id: match e.parent_id {
            Some(p) => Some(p as int),
            None => None,
        },
    }
}

pub open spec fn evs_v(es: Seq<ActivityEvent>) -> Seq<EventV> {
    es.map_values(|e: ActivityEvent| ev_v(e))
}

/// The notes of a day's anchor event.
pub open spec fn workout_note(d: Date) -> Seq<char> {
    "Workout "@ + date_seq(d)
}

/// Identifier of the exercise activity with the given normalized name,
/// scoped under the umbrella activity `wid`.
pub open spec fn exercise_id(arows: Seq<Activity>, user_id: i32, wid: i32, name: Seq<char>) -> int {
    arows[key_idx(arows, user_id, Some(wid), norm(name))].id as int
}

/// The events one day's records contribute under anchor `anchor_id`: the
/// k-th record gets event identifier `next + k`.
pub open spec fn rec_events(
    rs: Seq<Record>,
    arows: Seq<Activity>,
    user_id: i32,
    wid: i32,
    anchor_id: int,
    next: int,
) -> Seq<EventV>
    decreases rs.len(),
{
    if rs.len() == 0 {
        Seq::empty()
    } else {
        rec_events(rs.drop_last(), arows, user_id, wid, anchor_id, next).push(
            EventV {
                id: next + rs.len() - 1,
                activity_id: exercise_id(arows, user_id, wid, rs.last()@.exercise),
                notes: rs.last()@.sets,
                parent_id: Some(anchor_id),
            },
        )
    }
}

/// The events one day contributes, starting at identifier `next`: the
/// anchor, then one event per record.
pub open spec fn day_events(
    g: DayGroup,
    arows: Seq<Activity>,
    user_id: i32,
    wid: i32,
    next: int,
) -> Seq<EventV> {
    seq![
        EventV { id: next, activity_id: wid as int, notes: workout_note(g.date), parent_id: None },
    ] + rec_events(g.records@, arows, user_id, wid, next, next + 1)
}

/// The events a whole run appends, day by day, starting at identifier
/// `next`.
pub open spec fn events_for(
    days: Seq<DayGroup>,
    arows: Seq<Activity>,
    user_id: i32,
    wid: i32,
    next: int,
) -> Seq<EventV>
    decreases days.len(),
{
    if days.len() == 0 {
        Seq::empty()
    } else {
        let front = events_for(days.drop_last(), arows, user_id, wid, next);
        front + day_events(days.last(), arows, user_id, wid, next + front.len())
    }
}

/// The number of records over all day groups.
pub open spec fn total_records(days: Seq<DayGroup>) -> int
    decreases days.len(),
{
    if days.len() == 0 {
        0
    } else {
        total_records(days.drop_last()) + days.last().records@.len()
    }
}

pub proof fn lemma_total_records_prefix(days: Seq<DayGroup>, i: int)
    requires
        0 <= i <= days.len(),
    ensures
        total_records(days.subrange(0, i)) >= 0,
        total_records(days.subrange(0, i)) <= total_records(days),
        i < days.len() ==> total_records(days.subrange(0, i)) + days[i].records@.len()
            <= total_records(days),
    decreases days.len(),
{
    if days.len() == 0 {
        assert(days.subrange(0, i) =~= days);
    } else if i == days.len() {
        lemma_total_records_prefix(days.drop_last(), i - 1);
        assert(days.subrange(0, i) =~= days);
        assert(days.drop_last().subrange(0, i - 1) =~= days.drop_last());
    } else {
        assert(days.subrange(0, i) =~= days.drop_last().subrange(0, i));
        lemma_total_records_prefix(days.drop_last(), i);
        if i < days.len() - 1 {
            assert(days.drop_last()[i] == days[i]);
        }
    }
}

pub proof fn lemma_events_for_len(
    days: Seq<DayGroup>,
    arows: Seq<Activity>,
    user_id: i32,
    wid: i32,
    next: int,
)
    ensures
        events_for(days, arows, user_id, wid, next).len() == days.len() + total_records(days),
    decreases days.len(),
{
    if days.len() > 0 {
        lemma_events_for_len(days.drop_last(), arows, user_id, wid, next);
        let n = next + events_for(days.drop_last(), arows, user_id, wid, next).len();
        lemma_rec_events_len(days.last().records@, arows, user_id, wid, n, n + 1);
    }
}

proof fn lemma_rec_events_len(
    rs: Seq<Record>,
    arows: Seq<Activity>,
    user_id: i32,
    wid: i32,
    anchor_id: int,
    next: int,
)
    ensures
        rec_events(rs, arows, user_id, wid, anchor_id, next).len() == rs.len(),
    decreases rs.len(),
{
    if rs.len() > 0 {
        lemma_rec_events_len(rs.drop_last(), arows, user_id, wid, anchor_id, next);
    }
}

/// Growing the activity rows does not disturb the events already owed, as
/// long as every exercise scope they reference is already occupied.
proof fn lemma_rec_events_frame(
    rs: Seq<Record>,
    arows: Seq<Activity>,
    arows2: Seq<Activity>,
    user_id: i32,
    wid: i32,
    anchor_id: int,
    next: int,
)
    requires
        wf_rows(arows2),
        arows.is_prefix_of(arows2),
        forall|j: int|
            0 <= j < rs.len() ==> has_key(
                arows,
                user_id,
                Some(wid),
                norm((#[trigger] rs[j])@.exercise),
            ),
    ensures
        rec_events(rs, arows2, user_id, wid, anchor_id, next) == rec_events(
            rs,
            arows,
            user_id,
            wid,
            anchor_id,
            next,
        ),
    decreases rs.len(),
{
    if rs.len() > 0 {
        assert(forall|j: int| 0 <= j < rs.len() - 1 ==> rs.drop_last()[j] == rs[j]);
        lemma_rec_events_frame(rs.drop_last(), arows, arows2, user_id, wid, anchor_id, next);
        assert(rs[rs.len() - 1] == rs.last());
        lemma_key_idx_frame(arows, arows2, user_id, Some(wid), norm(rs.last()@.exercise));
    }
}

proof fn lemma_events_for_frame(
    days: Seq<DayGroup>,
    arows: Seq<Activity>,
    arows2: Seq<Activity>,
    user_id: i32,
    wid: i32,
    next: int,
)
    requires
        wf_rows(arows2),
        arows.is_prefix_of(arows2),
        forall|i: int, j: int|
            0 <= i < days.len() && 0 <= j < days[i].records@.len() ==> has_key(
                arows,
                user_id,
                Some(wid),
                norm((#[trigger] days[i].records@[j])@.exercise),
            ),
    ensures
        events_for(days, arows2, user_id, wid, next) == events_for(
            days,
            arows,
            user_id,
            wid,
            next,
        ),
    decreases days.len(),
{
    if days.len() > 0 {
        assert(forall|i: int| 0 <= i < days.len() - 1 ==> days.drop_last()[i] == days[i]);
        lemma_events_for_frame(days.drop_last(), arows, arows2, user_id, wid, next);
        assert(days[days.len() - 1] == days.last());
        lemma_rec_events_frame(
            days.last().records@,
            arows,
            arows2,
            user_id,
            wid,
            next + events_for(days.drop_last(), arows, user_id, wid, next).len(),
            next + events_for(days.drop_last(), arows, user_id, wid, next).len() + 1,
        );
    }
}

/// A row the import may add: owned by the user, in a scope that was free
/// beforehand, and either the umbrella activity itself or an exercise named
/// by some imported row, nested under the umbrella.
pub open spec fn fresh_act(
    a: Activity,
    rows0: Seq<Activity>,
    days: Seq<DayGroup>,
    user_id: i32,
    rows1: Seq<Activity>,
) -> bool {
    &&& a.user_id == user_id
    &&& !has_key(rows0, user_id, a.parent_id, norm(a.name@))
    &&& ((a.parent_id is None && norm(a.name@) == workout_key()) || (has_key(
        rows1,
        user_id,
        None,
        workout_key(),
    ) && a.parent_id == Some(workout_row(rows1, user_id).id) && exists|i: int, j: int|
        0 <= i < days.len() && 0 <= j < days[i].records@.len() && norm(a.name@) == norm(
            (#[trigger] days[i].records@[j])@.exercise,
        )))
}

/// After a successful run the umbrella scope and every exercise scope the
/// imported rows name are occupied.
pub open spec fn import_complete(days: Seq<DayGroup>, user_id: i32, rows1: Seq<Activity>) -> bool {
    &&& has_key(rows1, user_id, None, workout_key())
    &&& forall|i: int, j: int|
        0 <= i < days.len() && 0 <= j < days[i].records@.len() ==> has_key(
            rows1,
            user_id,
            Some(workout_row(rows1, user_id).id),
            norm((#[trigger] days[i].records@[j])@.exercise),
        )
}

/// What one successful `find_or_create` call leaves behind, seen through
/// the scope index: the returned row is the one row of its scope.
proof fn lemma_foc_key(
    rows0: Seq<Activity>,
    rows1: Seq<Activity>,
    name: Seq<char>,
    pid: Option<i32>,
    uid: i32,
    a: Activity,
)
    requires
        wf_rows(rows1),
        foc_post(rows0, rows1, name, pid, uid, a),
    ensures
        has_key(rows1, uid, pid, norm(name)),
        0 <= key_idx(rows1, uid, pid, norm(name)) < rows1.len(),
        rows1[key_idx(rows1, uid, pid, norm(name))] == a,
        matches_scope(a, uid, pid, norm(name)),
        rows0.is_prefix_of(rows1),
        1 <= a.id as int <= rows1.len(),
{
    lemma_norm_trim(name);
    if has_key(rows0, uid, pid, norm(name)) {
        let i = choose|i: int| 0 <= i < rows1.len() && rows1[i] == a;
        assert(matches_scope(rows1[i], uid, pid, norm(name)));
        lemma_key_idx(rows1, uid, pid, norm(name));
        assert(rows0.is_prefix_of(rows1)) by {
            assert(rows1.subrange(0, rows1.len() as int) =~= rows1);
        }
        assert(rows1[key_idx(rows1, uid, pid, norm(name))] == a);
        assert(a.id as int == key_idx(rows1, uid, pid, norm(name)) + 1);
    } else {
        assert(rows1[rows0.len() as int] == a);
        assert(norm(a.name@) == norm(name));
        assert(matches_scope(rows1[rows0.len() as int], uid, pid, norm(name)));
        lemma_key_idx(rows1, uid, pid, norm(name));
        assert(rows0.is_prefix_of(rows1)) by {
            assert(rows1.subrange(0, rows0.len() as int) =~= rows0);
        }
    }
}

/// Law: a second run of the same import for the same user creates no
/// activity at all — whatever rows the first successful run left are
/// exactly the rows after the second run.
pub proof fn lemma_import_idempotent(
    days: Seq<DayGroup>,
    user_id: i32,
    rows0: Seq<Activity>,
    rows1: Seq<Activity>,
    rows2: Seq<Activity>,
)
    requires
        wf_rows(rows2),
        rows0.is_prefix_of(rows1),
        rows1.is_prefix_of(rows2),
        import_complete(days, user_id, rows1),
        forall|i: int|
            rows1.len() <= i < rows2.len() ==> fresh_act(
                #[trigger] rows2[i],
                rows1,
                days,
                user_id,
                rows2,
            ),
    ensures
        rows2 == rows1,
{
    if rows2.len() > rows1.len() {
        let x = rows2[rows1.len() as int];
        assert(fresh_act(x, rows1, days, user_id, rows2));
        if x.parent_id is None && norm(x.name@) == workout_key() {
            assert(has_key(rows1, user_id, x.parent_id, norm(x.name@)));
        } else {
            lemma_key_idx_frame(rows1, rows2, user_id, None, workout_key());
            assert(workout_row(rows2, user_id) == workout_row(rows1, user_id)) by {
                let ki = key_idx(rows1, user_id, None, workout_key());
                lemma_key_idx(rows2, user_id, None, workout_key());
                assert(rows1[ki] == rows2.subrange(0, rows1.len() as int)[ki]);
            }
            let (i, j) = choose|i: int, j: int|
                0 <= i < days.len() && 0 <= j < days[i].records@.len() && norm(x.name@) == norm(
                    (#[trigger] days[i].records@[j])@.exercise,
                );
            assert(has_key(
                rows1,
                user_id,
                Some(workout_row(rows1, user_id).id),
                norm(days[i].records@[j]@.exercise),
            ));
            assert(has_key(rows1, user_id, x.parent_id, norm(x.name@)));
        }
        assert(false);
    }
    assert(rows2 =~= rows1);
}

/// Whether `y` is `x` with every event identifier shifted by `d`.
pub open spec fn shifted_ev(x: EventV, y: EventV, d: int) -> bool {
    &&& y.id == x.id + d
    &&& y.activity_id == x.activity_id
    &&& y.notes == x.notes
    &&& y.parent_id == match x.parent_id {
        Some(p) => Some(p + d),
        None => None::<int>,
    }
}

proof fn lemma_rec_events_shift(
    rs: Seq<Record>,
    arows: Seq<Activity>,
    user_id: i32,
    wid: i32,
    anchor_id: int,
    next: int,
    d: int,
)
    ensures
        rec_events(rs, arows, user_id, wid, anchor_id + d, next + d).len() == rec_events(
            rs,
            arows,
            user_id,
            wid,
            anchor_id,
            next,
        ).len(),
        forall|k: int|
            0 <= k < rs.len() ==> shifted_ev(
                #[trigger] rec_events(rs, arows, user_id, wid, anchor_id, next)[k],
                rec_events(rs, arows, user_id, wid, anchor_id + d, next + d)[k],
                d,
            ),
    decreases rs.len(),
{
    lemma_rec_events_len(rs, arows, user_id, wid, anchor_id, next);
    lemma_rec_events_len(rs, arows, user_id, wid, anchor_id + d, next + d);
    if rs.len() > 0 {
        lemma_rec_events_shift(rs.drop_last(), arows, user_id, wid, anchor_id, next, d);
        lemma_rec_events_len(rs.drop_last(), arows, user_id, wid, anchor_id, next);
        lemma_rec_events_len(rs.drop_last(), arows, user_id, wid, anchor_id + d, next + d);
    }
}

/// Law: the events a run appends do not depend on where the identifier
/// counter starts, except by a uniform shift. So a second run of the same
/// import appends the same events again — same notes, same activities,
/// same shape — as append-only duplicates that nothing merges.
pub proof fn lemma_import_appends_again(
    days: Seq<DayGroup>,
    arows: Seq<Activity>,
    user_id: i32,
    wid: i32,
    n1: int,
    n2: int,
)
    ensures
        events_for(days, arows, user_id, wid, n1).len() == events_for(
            days,
            arows,
            user_id,
            wid,
            n2,
        ).len(),
        forall|k: int|
            0 <= k < events_for(days, arows, user_id, wid, n1).len() ==> shifted_ev(
                #[trigger] events_for(days, arows, user_id, wid, n1)[k],
                events_for(days, arows, user_id, wid, n2)[k],
                n2 - n1,
            ),
    decreases days.len(),
{
    lemma_events_for_len(days, arows, user_id, wid, n1);
    lemma_events_for_len(days, arows, user_id, wid, n2);
    if days.len() > 0 {
        lemma_import_appends_again(days.drop_last(), arows, user_id, wid, n1, n2);
        let f1 = events_for(days.drop_last(), arows, user_id, wid, n1);
        let f2 = events_for(days.drop_last(), arows, user_id, wid, n2);
        lemma_events_for_len(days.drop_last(), arows, user_id, wid, n1);
        lemma_events_for_len(days.drop_last(), arows, user_id, wid, n2);
        let g = days.last();
        let a1 = n1 + f1.len();
        let a2 = n2 + f2.len();
        lemma_rec_events_shift(g.records@, arows, user_id, wid, a1, a1 + 1, n2 - n1);
        lemma_rec_events_len(g.records@, arows, user_id, wid, a1, a1 + 1);
        assert forall|k: int|
            0 <= k < events_for(days, arows, user_id, wid, n1).len() implies shifted_ev(
            #[trigger] events_for(days, arows, user_id, wid, n1)[k],
            events_for(days, arows, user_id, wid, n2)[k],
            n2 - n1,
        ) by {
            if k < f1.len() {
                assert(events_for(days, arows, user_id, wid, n1)[k] == f1[k]);
                assert(events_for(days, arows, user_id, wid, n2)[k] == f2[k]);
            } else if k == f1.len() {
                assert(events_for(days, arows, user_id, wid, n1)[k] == day_events(
                    g,
                    arows,
                    user_id,
                    wid,
                    a1,
                )[0]);
                assert(events_for(days, arows, user_id, wid, n2)[k] == day_events(
                    g,
                    arows,
                    user_id,
                    wid,
                    a2,
                )[0]);
            } else {
                let j = k - f1.len() - 1;
                assert(events_for(days, arows, user_id, wid, n1)[k] == rec_events(
                    g.records@,
                    arows,
                    user_id,
                    wid,
                    a1,
                    a1 + 1,
                )[j]);
                assert(events_for(days, arows, user_id, wid, n2)[k] == rec_events(
                    g.records@,
                    arows,
                    user_id,
                    wid,
                    a2,
                    a2 + 1,
                )[j]);
                assert(a2 == a1 + (n2 - n1));
            }
        }
    }
}

/// A prepared import: the day groups parsed out of an already-fetched
/// spreadsheet blob. Fetching the blob is the caller's business.
pub struct DbImport {
    pub days: Vec<DayGroup>,
}

impl DbImport {
    /// Every group carries a date that exists in the calendar.
    pub open spec fn wf(self) -> bool {
        forall|i: int| 0 <= i < self.days@.len() ==> (#[trigger] self.days@[i]).date.wf()
    }

    /// Parse and group raw spreadsheet text.
    pub fn from(text: &str) -> (r: DbImport)
        ensures
            r.wf(),
            ({
                let rvs = parse_rows(text@);
                &&& r.days@.len() == dates_of_v(rvs).len()
                &&& forall|i: int|
                    0 <= i < r.days@.len() ==> (#[trigger] r.days@[i]).date == dates_of_v(rvs)[i]
                &&& forall|i: int|
                    0 <= i < r.days@.len() ==> recs_v((#[trigger] r.days@[i]).records@)
                        == rvs.filter(date_pred_v(r.days@[i].date))
            }),
    {
        let parsed = ParsedCsv::from(text);
        let ghost rs = parsed.records@;
        let ghost rvs = parse_rows(text@);
        let days = parsed.days();
        proof {
            lemma_dates_of(rs);
            assert forall|i: int| 0 <= i < days@.len() implies recs_v(
                (#[trigger] days@[i]).records@,
            ) == rvs.filter(date_pred_v(days@[i].date)) by {
                lemma_group_v(rs, days@[i].date);
            }
            lemma_group_v(rs, Date { year: 0, month: 1, day: 1 });
            let lines = split_char(text@, '\n');
            lemma_rows_of_wf(fields_spec(lines[0]), lines.subrange(1, lines.len() as int));
            assert forall|i: int| 0 <= i < days@.len() implies (#[trigger] days@[i]).date.wf()
            by {
                let k = choose|k: int|
                    0 <= k < rs.len() && (#[trigger] rs[k]).date == dates_of(rs)[i];
                assert(recs_v(rs)[k] == rs[k]@);
                assert(rvs[k].date.wf());
            }
        }
        DbImport { days }
    }

    /// Reconcile the grouped rows into the hierarchy for `user`: resolve
    /// the umbrella "Workout" activity once, then per day create one anchor
    /// event under it and, per row, resolve an exercise activity under the
    /// umbrella and append an event under the anchor. A failing insert
    /// aborts the run, leaving the days already processed in place.
    #[verifier::rlimit(100)]
    pub fn run(
        self,
        user: &User,
        activities: &mut ActivitiesRepo,
        activity_events: &mut ActivityEventsRepo,
    ) -> (r: Result<(), StoreError>)
        requires
            self.wf(),
            old(activities).wf(),
            old(activity_events).wf(),
        ensures
            final(activities).wf(),
            final(activity_events).wf(),
            old(activities).rows@.is_prefix_of(final(activities).rows@),
            old(activity_events).rows@.is_prefix_of(final(activity_events).rows@),
            forall|i: int|
                old(activities).rows@.len() <= i < final(activities).rows@.len() ==> fresh_act(
                    #[trigger] final(activities).rows@[i],
                    old(activities).rows@,
                    self.days@,
                    user.id,
                    final(activities).rows@,
                ),
            r is Ok ==> import_complete(self.days@, user.id, final(activities).rows@),
            r is Ok ==> evs_v(final(activity_events).rows@) == evs_v(old(activity_events).rows@)
                + events_for(
                self.days@,
                final(activities).rows@,
                user.id,
                workout_row(final(activities).rows@, user.id).id,
                old(activity_events).rows@.len() as int + 1,
            ),
            r matches Err(e) ==> e == StoreError::Full,
            (old(activities).rows@.len() + 1 + total_records(self.days@) <= i32::MAX as int
                && old(activity_events).rows@.len() + self.days@.len() + total_records(self.days@)
                <= i32::MAX as int) ==> r is Ok,
    {
        let ghost rows0 = activities.rows@;
        let ghost erows0 = activity_events.rows@;
        let ghost days_v = self.days@;
        let ghost uid = user.id;
        proof {
            lemma_total_records_prefix(days_v, days_v.len() as int);
            assert(days_v.subrange(0, days_v.len() as int) =~= days_v);
        }

        let workout = match activities.find_or_create("Workout", None, user) {
            Ok(w) => w,
            Err(e) => {
                proof {
                    assert(rows0.is_prefix_of(rows0)) by {
                        assert(rows0.subrange(0, rows0.len() as int) =~= rows0);
                    }
                    assert(erows0.is_prefix_of(erows0)) by {
                        assert(erows0.subrange(0, erows0.len() as int) =~= erows0);
                    }
                }
                return Err(e);
            },
        };
        proof {
            lemma_foc_key(rows0, activities.rows@, "Workout"@, None, uid, workout);
            assert(erows0.is_prefix_of(erows0)) by {
                assert(erows0.subrange(0, erows0.len() as int) =~= erows0);
            }
            assert(days_v.subrange(0, 0) =~= Seq::<DayGroup>::empty());
            assert(evs_v(erows0) + events_for(
                days_v.subrange(0, 0),
                activities.rows@,
                uid,
                workout.id,
                erows0.len() as int + 1,
            ) =~= evs_v(erows0));
            assert forall|i: int|
                rows0.len() <= i < activities.rows@.len() implies fresh_act(
                #[trigger] activities.rows@[i],
                rows0,
                days_v,
                uid,
                activities.rows@,
            ) by {
                assert(activities.rows@[i] == workout);
            }
        }

        let nd = self.days.len();
        let mut di: usize = 0;
        while di < nd
            invariant
                di <= nd,
                nd == days_v.len(),
                days_v == self.days@,
                self.wf(),
                uid == user.id,
                rows0 == old(activities).rows@,
                erows0 == old(activity_events).rows@,
                activities.wf(),
                activity_events.wf(),
                rows0.is_prefix_of(activities.rows@),
                erows0.is_prefix_of(activity_events.rows@),
                has_key(activities.rows@, uid, None, workout_key()),
                activities.rows@[key_idx(activities.rows@, uid, None, workout_key())] == workout,
                1 <= workout.id as int <= activities.rows@.len(),
                evs_v(activity_events.rows@) == evs_v(erows0) + events_for(
                    days_v.subrange(0, di as int),
                    activities.rows@,
                    uid,
                    workout.id,
                    erows0.len() as int + 1,
                ),
                activity_events.rows@.len() == erows0.len() + di + total_records(
                    days_v.subrange(0, di as int),
                ),
                activities.rows@.len() <= rows0.len() + 1 + total_records(
                    days_v.subrange(0, di as int),
                ),
                forall|i: int|
                    rows0.len() <= i < activities.rows@.len() ==> fresh_act(
                        #[trigger] activities.rows@[i],
                        rows0,
                        days_v,
                        uid,
                        activities.rows@,
                    ),
                forall|i: int, j: int|
                    0 <= i < di && 0 <= j < days_v[i].records@.len() ==> has_key(
                        activities.rows@,
                        uid,
                        Some(workout.id),
                        norm((#[trigger] days_v[i].records@[j])@.exercise),
                    ),
            decreases nd - di,
        {
            let ghost pre_days = days_v.subrange(0, di as int);
            let ghost elen_day = activity_events.rows@.len();
            proof {
                lemma_total_records_prefix(days_v, di as int);
            }

            let g = &self.days[di];
            let mut note = "Workout ".to_owned();
            let date_text = g.date.to_text();
            note.append(date_text.as_str());
            proof {
                assert(note@ == workout_note(g.date));
            }

            let anchor = match activity_events.create(&workout, note.as_str(), None) {
                Ok(e) => e,
                Err(e) => {
                    return Err(e);
                },
            };
            let ghost anchor_v = ev_v(anchor);
            let ghost aid = anchor.id;
            proof {
                lemma_events_for_len(pre_days, activities.rows@, uid, workout.id, erows0.len() as int + 1);
                assert(aid as int == erows0.len() as int + 1 + (di + total_records(pre_days)));
                assert(anchor_v == EventV {
                    id: erows0.len() as int + 1 + (di + total_records(pre_days)),
                    activity_id: workout.id as int,
                    notes: workout_note(g.date),
                    parent_id: None::<int>,
                });
                let erows_pre = activity_events.rows@.drop_last();
                assert(evs_v(activity_events.rows@) =~= evs_v(erows_pre).push(anchor_v));
                assert(g.records@.subrange(0, 0) =~= Seq::<Record>::empty());
                assert(evs_v(activity_events.rows@) =~= evs_v(erows0) + events_for(
                    pre_days,
                    activities.rows@,
                    uid,
                    workout.id,
                    erows0.len() as int + 1,
                ) + seq![anchor_v] + rec_events(
                    g.records@.subrange(0, 0),
                    activities.rows@,
                    uid,
                    workout.id,
                    aid as int,
                    aid as int + 1,
                ));
                assert(erows0.is_prefix_of(activity_events.rows@)) by {
                    lemma_prefix_trans(erows0, erows_pre, activity_events.rows@);
                    assert(erows_pre.is_prefix_of(activity_events.rows@)) by {
                        assert(activity_events.rows@.subrange(0, erows_pre.len() as int)
                            =~= erows_pre);
                    }
                }
            }

            let nr = g.records.len();
            let mut rj: usize = 0;
            while rj < nr
                invariant
                    rj <= nr,
                    di < nd,
                    nd == days_v.len(),
                    days_v == self.days@,
                    self.wf(),
                    uid == user.id,
                    rows0 == old(activities).rows@,
                    erows0 == old(activity_events).rows@,
                    *g == days_v[di as int],
                    nr == g.records@.len(),
                    activities.wf(),
                    activity_events.wf(),
                    rows0.is_prefix_of(activities.rows@),
                    erows0.is_prefix_of(activity_events.rows@),
                    has_key(activities.rows@, uid, None, workout_key()),
                    activities.rows@[key_idx(activities.rows@, uid, None, workout_key())]
                        == workout,
                    1 <= workout.id as int <= activities.rows@.len(),
                    aid as int == erows0.len() + di + total_records(pre_days) + 1,
                    pre_days == days_v.subrange(0, di as int),
                    1 <= aid as int <= activity_events.rows@.len(),
                    evs_v(activity_events.rows@) == evs_v(erows0) + events_for(
                        pre_days,
                        activities.rows@,
                        uid,
                        workout.id,
                        erows0.len() as int + 1,
                    ) + seq![anchor_v] + rec_events(
                        g.records@.subrange(0, rj as int),
                        activities.rows@,
                        uid,
                        workout.id,
                        aid as int,
                        aid as int + 1,
                    ),
                    anchor_v == ev_v(anchor),
                    anchor_v.id == aid as int,
                    activity_events.rows@.len() == erows0.len() + di + total_records(pre_days)
                        + 1 + rj,
                    activities.rows@.len() <= rows0.len() + 1 + total_records(pre_days) + rj,
                    forall|i: int|
                        rows0.len() <= i < activities.rows@.len() ==> fresh_act(
                            #[trigger] activities.rows@[i],
                            rows0,
                            days_v,
                            uid,
                            activities.rows@,
                        ),
                    forall|i: int, j: int|
                        0 <= i < di && 0 <= j < days_v[i].records@.len() ==> has_key(
                            activities.rows@,
                            uid,
                            Some(workout.id),
                            norm((#[trigger] days_v[i].records@[j])@.exercise),
                        ),
                    forall|j: int|
                        0 <= j < rj ==> has_key(
                            activities.rows@,
                            uid,
                            Some(workout.id),
                            norm((#[trigger] g.records@[j])@.exercise),
                        ),
                decreases nr - rj,
            {
                proof {
                    lemma_total_records_prefix(days_v, di as int);
                }
                let rec = &g.records[rj];
                let ghost arows_before = activities.rows@;
                let exercise = match activities.find_or_create(
                    rec.exercise.as_str(),
                    Some(&workout),
                    user,
                ) {
                    Ok(a) => a,
                    Err(e) => {
                        return Err(e);
                    },
                };
                proof {
                    lemma_foc_key(
                        arows_before,
                        activities.rows@,
                        rec.exercise@,
                        Some(workout.id),
                        uid,
                        exercise,
                    );
                    lemma_prefix_trans(rows0, arows_before, activities.rows@);
                    lemma_key_idx_frame(arows_before, activities.rows@, uid, None, workout_key());
                    lemma_events_for_frame(
                        pre_days,
                        arows_before,
                        activities.rows@,
                        uid,
                        workout.id,
                        erows0.len() as int + 1,
                    );
                    assert(forall|j: int|
                        0 <= j < rj ==> g.records@.subrange(0, rj as int)[j] == g.records@[j]);
                    lemma_rec_events_frame(
                        g.records@.subrange(0, rj as int),
                        arows_before,
                        activities.rows@,
                        uid,
                        workout.id,
                        aid as int,
                        aid as int + 1,
                    );
                    assert forall|i: int, j: int|
                        0 <= i < di && 0 <= j < days_v[i].records@.len() implies has_key(
                        activities.rows@,
                        uid,
                        Some(workout.id),
                        norm((#[trigger] days_v[i].records@[j])@.exercise),
                    ) by {
                        lemma_has_key_prefix(
                            arows_before,
                            activities.rows@,
                            uid,
                            Some(workout.id),
                            norm(days_v[i].records@[j]@.exercise),
                        );
                    }
                    assert forall|j: int|
                        0 <= j < rj + 1 implies has_key(
                        activities.rows@,
                        uid,
                        Some(workout.id),
                        norm((#[trigger] g.records@[j])@.exercise),
                    ) by {
                        if j < rj {
                            lemma_has_key_prefix(
                                arows_before,
                                activities.rows@,
                                uid,
                                Some(workout.id),
                                norm(g.records@[j]@.exercise),
                            );
                        } else {
                            lemma_norm_trim(rec.exercise@);
                            assert(g.records@[j] == *rec);
                        }
                    }
                    assert forall|i: int|
                        rows0.len() <= i < activities.rows@.len() implies fresh_act(
                        #[trigger] activities.rows@[i],
                        rows0,
                        days_v,
                        uid,
                        activities.rows@,
                    ) by {
                        if i < arows_before.len() {
                            assert(arows_before[i] == activities.rows@.subrange(
                                0,
                                arows_before.len() as int,
                            )[i]);
                            assert(fresh_act(arows_before[i], rows0, days_v, uid, arows_before));
                            if !(arows_before[i].parent_id is None && norm(
                                arows_before[i].name@,
                            ) == workout_key()) {
                                lemma_has_key_prefix(
                                    arows_before,
                                    activities.rows@,
                                    uid,
                                    None,
                                    workout_key(),
                                );
                            }
                        } else {
                            assert(activities.rows@[i] == exercise);
                            if has_key(
                                arows_before,
                                uid,
                                Some(workout.id),
                                norm(rec.exercise@),
                            ) {
                                assert(activities.rows@ == arows_before);
                                assert(false);
                            } else {
                                assert(!has_key(rows0, uid, Some(workout.id), norm(
                                    rec.exercise@,
                                ))) by {
                                    if has_key(rows0, uid, Some(workout.id), norm(
                                        rec.exercise@,
                                    )) {
                                        lemma_has_key_prefix(
                                            rows0,
                                            arows_before,
                                            uid,
                                            Some(workout.id),
                                            norm(rec.exercise@),
                                        );
                                    }
                                }
                                assert(exercise.parent_id == Some(workout.id));
                                assert(norm(exercise.name@) == norm(rec.exercise@));
                                assert(days_v[di as int].records@[rj as int] == *rec);
                                assert(0 <= di < days_v.len() && 0 <= rj
                                    < days_v[di as int].records@.len() && norm(exercise.name@)
                                    == norm(days_v[di as int].records@[rj as int]@.exercise));
                            }
                        }
                    }
                }
                let ev = match activity_events.create(&exercise, rec.sets.as_str(), Some(&anchor)) {
                    Ok(e) => e,
                    Err(e) => {
                        return Err(e);
                    },
                };
                proof {
                    let erows_pre = activity_events.rows@.drop_last();
                    assert(evs_v(activity_events.rows@) =~= evs_v(erows_pre).push(ev_v(ev)));
                    assert(erows0.is_prefix_of(activity_events.rows@)) by {
                        lemma_prefix_trans(erows0, erows_pre, activity_events.rows@);
                        assert(erows_pre.is_prefix_of(activity_events.rows@)) by {
                            assert(activity_events.rows@.subrange(0, erows_pre.len() as int)
                                =~= erows_pre);
                        }
                    }
                    let part = g.records@.subrange(0, rj as int);
                    let cur = g.records@.subrange(0, rj as int + 1);
                    assert(cur.drop_last() =~= part);
                    assert(cur.last() == g.records@[rj as int]);
                    assert(g.records@[rj as int] == *rec);
                    assert(ev_v(ev) == EventV {
                        id: aid as int + 1 + rj,
                        activity_id: exercise_id(activities.rows@, uid, workout.id, rec.exercise@),
                        notes: rec.sets@,
                        parent_id: Some(aid as int),
                    });
                    assert(rec_events(
                        cur,
                        activities.rows@,
                        uid,
                        workout.id,
                        aid as int,
                        aid as int + 1,
                    ) =~= rec_events(
                        part,
                        activities.rows@,
                        uid,
                        workout.id,
                        aid as int,
                        aid as int + 1,
                    ).push(ev_v(ev))) by {
                        assert(norm(cur.last()@.exercise) == norm(rec.exercise@));
                    }
                    assert(evs_v(erows0) + events_for(
                        pre_days,
                        activities.rows@,
                        uid,
                        workout.id,
                        erows0.len() as int + 1,
                    ) + seq![anchor_v] + rec_events(
                        part,
                        activities.rows@,
                        uid,
                        workout.id,
                        aid as int,
                        aid as int + 1,
                    ).push(ev_v(ev)) =~= (evs_v(erows0) + events_for(
                        pre_days,
                        activities.rows@,
                        uid,
                        workout.id,
                        erows0.len() as int + 1,
                    ) + seq![anchor_v] + rec_events(
                        part,
                        activities.rows@,
                        uid,
                        workout.id,
                        aid as int,
                        aid as int + 1,
                    )).push(ev_v(ev)));
                }
                rj = rj + 1;
            }
            proof {
                let cur_days = days_v.subrange(0, di as int + 1);
                assert(cur_days.drop_last() =~= pre_days);
                assert(cur_days.last() == days_v[di as int]);
                assert(g.records@.subrange(0, nr as int) =~= g.records@);
                lemma_events_for_len(pre_days, activities.rows@, uid, workout.id, erows0.len() as int + 1);
                assert(day_events(
                    days_v[di as int],
                    activities.rows@,
                    uid,
                    workout.id,
                    aid as int,
                ) =~= seq![anchor_v] + rec_events(
                    g.records@,
                    activities.rows@,
                    uid,
                    workout.id,
                    aid as int,
                    aid as int + 1,
                ));
                assert(events_for(
                    cur_days,
                    activities.rows@,
                    uid,
                    workout.id,
                    erows0.len() as int + 1,
                ) =~= events_for(
                    pre_days,
                    activities.rows@,
                    uid,
                    workout.id,
                    erows0.len() as int + 1,
                ) + day_events(days_v[di as int], activities.rows@, uid, workout.id, aid as int));
                assert(evs_v(activity_events.rows@) =~= evs_v(erows0) + events_for(
                    cur_days,
                    activities.rows@,
                    uid,
                    workout.id,
                    erows0.len() as int + 1,
                ));
                assert(total_records(cur_days) == total_records(pre_days)
                    + days_v[di as int].records@.len());
            }
            di = di + 1;
        }
        proof {
            assert(days_v.subrange(0, nd as int) =~= days_v);
            assert(workout_row(activities.rows@, uid) == workout);
        }
        Ok(())
    }
}

} // verus!
