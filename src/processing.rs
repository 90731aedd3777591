//! The weekly total: where the current week starts, and how long the
//! intervals logged since then last.
use vstd::prelude::*;
use vstd::arithmetic::div_mod::lemma_add_mod_noop;
use crate::ast::{DayRecord, Event, EventInfo, File};
use crate::calendar::{weekday_index, weekday_of_day_number, DateTime, Time, SECS_PER_DAY};
use crate::settings::Settings;

verus! {

/// Why a weekly total was refused.
#[derive(Clone, Debug)]
pub enum AggregateError {
    /// Intervals that lie after the reference moment.
    NotPast(Vec<EventInfo>),
}

/// The time of day at which a week starts when no settings say otherwise.
pub const DEFAULT_START_SECS: u32 = 21600;

/// The weekday (counted from Monday) at which the week starts.
pub open spec fn anchor_weekday(settings: Option<Settings>, today: DateTime) -> int {
    match settings {
        Some(s) => s.start.weekday.index(),
        None => weekday_index(today.date.days - 7),
    }
}

/// The time of day at which the week starts.
pub open spec fn anchor_time(settings: Option<Settings>) -> Time {
    match settings {
        Some(s) => s.start.time,
        None => Time { secs: DEFAULT_START_SECS, nanos: 0 },
    }
}

/// The day on which the current week started: the latest day on or before
/// `today` with weekday `wd` whose start time `t` is not after `today`.
pub open spec fn window_start_day(today: DateTime, wd: int, t: Time) -> int {
    let twd = weekday_index(today.date.days as int);
    if twd == wd {
        if today.time.is_before(t) {
            today.date.days - 7
        } else {
            today.date.days as int
        }
    } else {
        today.date.days - (twd - wd) % 7
    }
}

/// Whether the moment (`day`, `time`) is not before (`start_day`, `start_time`).
pub open spec fn in_window(day: int, time: Time, start_day: int, start_time: Time) -> bool {
    day > start_day || (day == start_day && !time.is_before(start_time))
}

/// Seconds of the intervals of `infos`, logged on `day`, that lie in the window.
pub open spec fn infos_secs(infos: Seq<EventInfo>, day: int, sd: int, st: Time) -> int
    decreases infos.len(),
{
    if infos.len() == 0 {
        0
    } else {
        infos_secs(infos.drop_last(), day, sd, st) + if in_window(day, infos.last().time, sd, st) {
            infos.last().duration.secs as int
        } else {
            0
        }
    }
}

pub open spec fn events_secs(events: Seq<Event>, day: int, sd: int, st: Time) -> int
    decreases events.len(),
{
    if events.len() == 0 {
        0
    } else {
        events_secs(events.drop_last(), day, sd, st) + infos_secs(events.last().info@, day, sd, st)
    }
}

pub open spec fn records_secs(records: Seq<DayRecord>, sd: int, st: Time) -> int
    decreases records.len(),
{
    if records.len() == 0 {
        0
    } else {
        records_secs(records.drop_last(), sd, st) + events_secs(records.last().events@, records.last().date.days as int, sd, st)
    }
}

/// Seconds of all intervals of `events`, in the window or not.
pub open spec fn events_total(events: Seq<Event>) -> int
    decreases events.len(),
{
    if events.len() == 0 {
        0
    } else {
        events_total(events.drop_last()) + infos_total(events.last().info@)
    }
}

pub open spec fn infos_total(infos: Seq<EventInfo>) -> int
    decreases infos.len(),
{
    if infos.len() == 0 {
        0
    } else {
        infos_total(infos.drop_last()) + infos.last().duration.secs
    }
}

/// The seconds logged in the week that contains `today`.
pub open spec fn weekly_secs(file: File, today: DateTime) -> int {
    let wd = anchor_weekday(file.settings, today);
    let t = anchor_time(file.settings);
    records_secs(file.records@, window_start_day(today, wd, t), t)
}

/// With no settings, the week starts on today's own weekday at six in the
/// morning: today itself when the time is six or later, else a week back.
pub proof fn lemma_default_window(today: DateTime)
    ensures
        anchor_weekday(None, today) == weekday_index(today.date.days as int),
        anchor_time(None) == (Time { secs: DEFAULT_START_SECS, nanos: 0 }),
        !today.time.is_before(anchor_time(None)) ==> window_start_day(today, anchor_weekday(None, today),
            anchor_time(None)) == today.date.days,
        today.time.is_before(anchor_time(None)) ==> window_start_day(today, anchor_weekday(None, today),
            anchor_time(None)) == today.date.days - 7,
{
    let d = today.date.days as int;
    assert((d - 7 - 1) % 7 == (d - 1) % 7) by (nonlinear_arith);
}

/// A moment exactly at the window start is in the window; any earlier
/// moment of that day is not.
pub proof fn lemma_window_edge(start_day: int, start_time: Time, t: Time)
    ensures
        in_window(start_day, start_time, start_day, start_time),
        t.is_before(start_time) ==> !in_window(start_day, t, start_day, start_time),
{
}

/// Every interval of `infos`, logged on `day`, lies in the window (`inside`)
/// or before it (`!inside`).
pub open spec fn infos_all(infos: Seq<EventInfo>, day: int, sd: int, st: Time, inside: bool) -> bool {
    forall|k: int| 0 <= k < infos.len() ==> in_window(day, (#[trigger] infos[k]).time, sd, st) == inside
}

pub open spec fn events_all(events: Seq<Event>, day: int, sd: int, st: Time, inside: bool) -> bool {
    forall|i: int| 0 <= i < events.len() ==> infos_all((#[trigger] events[i]).info@, day, sd, st, inside)
}

proof fn lemma_infos_all(infos: Seq<EventInfo>, day: int, sd: int, st: Time, inside: bool)
    requires
        infos_all(infos, day, sd, st, inside),
    ensures
        infos_secs(infos, day, sd, st) == if inside {
            infos_total(infos)
        } else {
            0
        },
    decreases infos.len(),
{
    if infos.len() > 0 {
        assert(in_window(day, infos[infos.len() - 1].time, sd, st) == inside);
        lemma_infos_all(infos.drop_last(), day, sd, st, inside);
    }
}

proof fn lemma_events_all(events: Seq<Event>, day: int, sd: int, st: Time, inside: bool)
    requires
        events_all(events, day, sd, st, inside),
    ensures
        events_secs(events, day, sd, st) == if inside {
            events_total(events)
        } else {
            0
        },
    decreases events.len(),
{
    if events.len() > 0 {
        assert(infos_all(events[events.len() - 1].info@, day, sd, st, inside));
        lemma_events_all(events.drop_last(), day, sd, st, inside);
        lemma_infos_all(events.last().info@, day, sd, st, inside);
    }
}

/// Of a record whose intervals all lie before the window start and one whose
/// intervals all lie in the window, only the second counts, with all of its
/// intervals.
pub proof fn lemma_record_before_and_after(before: DayRecord, after: DayRecord, start_day: int, start_time: Time)
    requires
        events_all(before.events@, before.date.days as int, start_day, start_time, false),
        events_all(after.events@, after.date.days as int, start_day, start_time, true),
    ensures
        records_secs(seq![before, after], start_day, start_time) == events_total(after.events@),
{
    let rs = seq![before, after];
    assert(rs.drop_last() =~= seq![before]);
    assert(rs.drop_last().drop_last() =~= Seq::<DayRecord>::empty());
    lemma_events_all(before.events@, before.date.days as int, start_day, start_time, false);
    lemma_events_all(after.events@, after.date.days as int, start_day, start_time, true);
    assert(rs.last() == after);
    assert(rs.drop_last().last() == before);
    assert(records_secs(rs.drop_last().drop_last(), start_day, start_time) == 0);
    assert(records_secs(rs.drop_last(), start_day, start_time) == 0);
}

proof fn lemma_totals_nonneg(events: Seq<Event>)
    ensures
        events_total(events) >= 0,
    decreases events.len(),
{
    if events.len() > 0 {
        lemma_totals_nonneg(events.drop_last());
        lemma_infos_total_nonneg(events.last().info@);
    }
}

proof fn lemma_infos_total_nonneg(infos: Seq<EventInfo>)
    ensures
        infos_total(infos) >= 0,
    decreases infos.len(),
{
    if infos.len() > 0 {
        lemma_infos_total_nonneg(infos.drop_last());
    }
}

/// For a log of two records, one wholly before the current week's start and
/// one wholly within the week, the weekly total (as `calc_weekly_records`
/// returns it) is the sum of the second record's durations, when that sum is
/// under a day.
pub proof fn lemma_weekly_total_of_later_record(file: File, today: DateTime)
    requires
        file.records@.len() == 2,
        events_all(file.records@[0].events@, file.records@[0].date.days as int, window_start_day(today,
            anchor_weekday(file.settings, today), anchor_time(file.settings)), anchor_time(file.settings), false),
        events_all(file.records@[1].events@, file.records@[1].date.days as int, window_start_day(today,
            anchor_weekday(file.settings, today), anchor_time(file.settings)), anchor_time(file.settings), true),
        events_total(file.records@[1].events@) < SECS_PER_DAY,
    ensures
        weekly_secs(file, today) % (SECS_PER_DAY as int) == events_total(file.records@[1].events@),
{
    let sd = window_start_day(today, anchor_weekday(file.settings, today), anchor_time(file.settings));
    assert(file.records@ =~= seq![file.records@[0], file.records@[1]]);
    lemma_record_before_and_after(file.records@[0], file.records@[1], sd, anchor_time(file.settings));
    lemma_totals_nonneg(file.records@[1].events@);
}

/// Adds `secs` to a time of day held in whole seconds, wrapping at midnight.
fn add_wrapping(sum: u32, secs: u128) -> (r: u32)
    requires
        sum < SECS_PER_DAY,
    ensures
        r < SECS_PER_DAY,
        r as int == (sum + secs) % (SECS_PER_DAY as int),
{
    let r = ((sum as u128 + secs % 86400) % 86400) as u32;
    proof {
        lemma_add_mod_noop(sum as int, secs as int, 86400);
        assert((sum as int) % 86400 == sum as int);
    }
    r
}

/// The total duration of the intervals logged since the current week
/// started, as a time of day: it wraps at 24 hours, as adding a duration to
/// a clock does.
pub fn calc_weekly_records(file: &File, today: DateTime) -> (r: Result<Time, AggregateError>)
    ensures
        r matches Ok(t) && t.wf() && t.nanos == 0
            && t.secs as int == weekly_secs(*file, today) % (SECS_PER_DAY as int),
{
    let (wd, start_time): (u8, Time) = match file.settings {
        Some(s) => (s.start.weekday.num_days_from_monday(), s.start.time),
        None => (weekday_of_day_number(today.date.days as i64 - 7), Time { secs: DEFAULT_START_SECS, nanos: 0 }),
    };
    let today_days: i64 = today.date.days as i64;
    let twd = weekday_of_day_number(today_days);
    let start_day: i64 = if twd == wd {
        if today.time.lt(&start_time) {
            today_days - 7
        } else {
            today_days
        }
    } else {
        today_days - ((twd + 7 - wd) % 7) as i64
    };
    assert(start_day == window_start_day(today, anchor_weekday(file.settings, today), anchor_time(file.settings)));
    let ghost sd = start_day as int;

    let mut sum: u32 = 0;
    let mut i: usize = 0;
    while i < file.records.len()
        invariant
            i <= file.records@.len(),
            sum < SECS_PER_DAY,
            sum as int == records_secs(file.records@.subrange(0, i as int), sd, start_time) % (SECS_PER_DAY as int),
            sd == start_day,
        decreases file.records@.len() - i,
    {
        let rec = &file.records[i];
        let day: i64 = rec.date.days as i64;
        let mut j: usize = 0;
        let ghost base = records_secs(file.records@.subrange(0, i as int), sd, start_time);
        while j < rec.events.len()
            invariant
                j <= rec.events@.len(),
                sum < SECS_PER_DAY,
                sum as int == (base + events_secs(rec.events@.subrange(0, j as int), day as int, sd, start_time)) % (SECS_PER_DAY as int),
                sd == start_day,
            decreases rec.events@.len() - j,
        {
            let ev = &rec.events[j];
            let mut k: usize = 0;
            let ghost base2 = base + events_secs(rec.events@.subrange(0, j as int), day as int, sd, start_time);
            while k < ev.info.len()
                invariant
                    k <= ev.info@.len(),
                    sum < SECS_PER_DAY,
                    sum as int == (base2 + infos_secs(ev.info@.subrange(0, k as int), day as int, sd, start_time)) % (SECS_PER_DAY as int),
                    sd == start_day,
                decreases ev.info@.len() - k,
            {
                let info = ev.info[k];
                let ghost prev = infos_secs(ev.info@.subrange(0, k as int), day as int, sd, start_time);
                assert(ev.info@.subrange(0, k + 1).drop_last() =~= ev.info@.subrange(0, k as int));
                if day > start_day || (day == start_day && !info.time.lt(&start_time)) {
                    proof {
                        lemma_add_mod_noop(base2 + prev, info.duration.secs as int, 86400);
                        lemma_add_mod_noop(sum as int, info.duration.secs as int, 86400);
                        assert((sum as int) % 86400 == sum as int);
                    }
                    sum = add_wrapping(sum, info.duration.secs);
                }
                k = k + 1;
            }
            assert(ev.info@.subrange(0, k as int) =~= ev.info@);
            assert(rec.events@.subrange(0, j + 1).drop_last() =~= rec.events@.subrange(0, j as int));
            j = j + 1;
        }
        assert(rec.events@.subrange(0, j as int) =~= rec.events@);
        assert(file.records@.subrange(0, i + 1).drop_last() =~= file.records@.subrange(0, i as int));
        i = i + 1;
    }
    assert(file.records@.subrange(0, i as int) =~= file.records@);
    Ok(Time { secs: sum, nanos: 0 })
}

} // verus!
