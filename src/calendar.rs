//! The local calendar, through chrono: the present moment, the local date
//! and hour of a timestamp, and the timestamp of a local midnight. What
//! these return depends on the machine's clock and time zone, so nothing is
//! promised of their values beyond their ranges; the engine takes them as
//! plain values.
use vstd::prelude::*;

use chrono::{Datelike, Local, TimeZone, Timelike};

use crate::history::HistoryEntry;
use crate::stats::{compute_at, describes, Clock, LocalStamp, StatsSnapshot, Window};

verus! {

/// The local calendar reading of a timestamp.
#[derive(Debug, Clone, Copy, PartialEq, Eq)]
pub struct LocalFields {
    pub year: i32,
    /// 1 to 12.
    pub month: u32,
    /// 1 to 31.
    pub day: u32,
    /// 0 to 23.
    pub hour: u32,
    /// Days since Monday, 0 to 6.
    pub weekday: u32,
}

/// Relies on chrono's `Local::now` and `DateTime::timestamp`: the current
/// time in seconds since the epoch.
#[verifier::external_body]
fn now_timestamp() -> (r: i64) {
    Local::now().timestamp()
}

/// A bound on timestamps well inside chrono's range (about 250,000 years
/// either side of 1970).
pub const CALENDAR_LIMIT: i64 = 8000000000000;

/// Relies on chrono's `Local.timestamp_opt` and the `Datelike` and
/// `Timelike` accessors (month 1 to 12, day 1 to 31, hour 0 to 23,
/// `num_days_from_monday` 0 to 6): the local date, hour and weekday of a
/// timestamp. `timestamp_opt` gives a single local time for every
/// timestamp that `DateTime::from_timestamp` accepts, which covers
/// `CALENDAR_LIMIT`; `None` only beyond chrono's range.
#[verifier::external_body]
fn local_fields(ts: i64) -> (r: Option<LocalFields>)
    ensures
        r matches Some(f) ==> 1 <= f.month <= 12 && 1 <= f.day <= 31 && f.hour < 24 && f.weekday < 7,
        -CALENDAR_LIMIT <= ts <= CALENDAR_LIMIT ==> r is Some,
{
    match Local.timestamp_opt(ts, 0).single() {
        Some(dt) => Some(
            LocalFields {
                year: dt.year(),
                month: dt.month(),
                day: dt.day(),
                hour: dt.hour(),
                weekday: dt.weekday().num_days_from_monday(),
            },
        ),
        None => None,
    }
}

/// Relies on chrono's `Local.with_ymd_and_hms`: the timestamp of local
/// midnight at the start of a date; `None` when the date is invalid or the
/// time zone maps that midnight to no single instant.
#[verifier::external_body]
fn local_midnight(year: i32, month: u32, day: u32) -> (r: Option<i64>) {
    match Local.with_ymd_and_hms(year, month, day, 0, 0, 0).single() {
        Some(dt) => Some(dt.timestamp()),
        None => None,
    }
}

/// Relies on chrono's `Local.timestamp_opt` and `format`: the local date and
/// time of a timestamp written as `%b %d %Y at %I:%M %P`; `None` when chrono
/// cannot represent it.
#[verifier::external_body]
fn local_datetime_text(ts: i64) -> (r: Option<String>) {
    match Local.timestamp_opt(ts, 0).single() {
        Some(dt) => Some(dt.format("%b %d %Y at %I:%M %P").to_string()),
        None => None,
    }
}

/// The text shown for a timestamp, given its local reading `local`: a
/// timestamp of 0 is unknown, one that the calendar could not read is invalid.
pub fn describe_timestamp(timestamp: i64, local: Option<String>) -> (r: String)
    ensures
        timestamp == 0 ==> r@ == "Timestamp not available"@,
        timestamp != 0 && local is None ==> r@ == "Invalid timestamp"@,
        timestamp != 0 ==> (local matches Some(t) ==> r@ == t@),
{
    if timestamp == 0 {
        return "Timestamp not available".to_owned();
    }
    match local {
        Some(t) => t,
        None => "Invalid timestamp".to_owned(),
    }
}

/// The local date and time of `timestamp` as text, or why there is none.
pub fn format_timestamp(timestamp: i64) -> (r: String)
    ensures
        timestamp == 0 ==> r@ == "Timestamp not available"@,
{
    if timestamp == 0 {
        return describe_timestamp(timestamp, None);
    }
    describe_timestamp(timestamp, local_datetime_text(timestamp))
}

/// The month after `month` of `year`; `None` past the last representable year.
pub fn next_month(year: i32, month: u32) -> (r: Option<(i32, u32)>)
    requires
        1 <= month <= 12,
    ensures
        month == 12 ==> r == if year < i32::MAX {
            Some(((year + 1) as i32, 1u32))
        } else {
            None
        },
        month < 12 ==> r == Some((year, (month + 1) as u32)),
{
    if month == 12 {
        if year < i32::MAX {
            Some((year + 1, 1))
        } else {
            None
        }
    } else {
        Some((year, month + 1))
    }
}

/// Noon (by the clock of today) on the Monday `weeks_back` weeks before the
/// current week, given local midnight today and the days since Monday.
pub open spec fn monday_noon_spec(today_start: int, weekday: int, weeks_back: int) -> int {
    today_start + 43200 - (weekday + 7 * weeks_back) * 86400
}

/// The instant whose local date is the Monday `weeks_back` weeks before the
/// current week (a negative `weeks_back` counts forward): noon of that day
/// by the length of today's days, far from either midnight whatever a
/// daylight-saving change in between does. `None` outside the `i64` range.
pub fn monday_noon(today_start: i64, weekday: u32, weeks_back: i64) -> (r: Option<i64>)
    requires
        weekday < 7,
    ensures
        i64::MIN <= monday_noon_spec(today_start as int, weekday as int, weeks_back as int) <= i64::MAX
            ==> r == Some(monday_noon_spec(today_start as int, weekday as int, weeks_back as int) as i64),
        !(i64::MIN <= monday_noon_spec(today_start as int, weekday as int, weeks_back as int) <= i64::MAX)
            ==> r is None,
{
    let v: i128 = today_start as i128 + 43200 - (weekday as i128 + 7 * weeks_back as i128) * 86400;
    if i64::MIN as i128 <= v && v <= i64::MAX as i128 {
        Some(v as i64)
    } else {
        None
    }
}

/// The date of a local reading when it falls on a Monday.
pub fn monday_date(reading: Option<LocalFields>) -> (r: Option<(i32, u32, u32)>)
    ensures
        r == match reading {
            Some(f) => if f.weekday == 0 {
                Some((f.year, f.month, f.day))
            } else {
                None
            },
            None => None,
        },
{
    match reading {
        Some(f) => if f.weekday == 0 {
            Some((f.year, f.month, f.day))
        } else {
            None
        },
        None => None,
    }
}

/// The clock made of the calendar readings: local midnight today; local
/// midnight of the Monday before the window's week, of the window's Monday
/// and of the Monday after; local midnight of the first day of the month in
/// view and of the month after.
pub open spec fn clock_of(
    today_start: Option<i64>,
    mondays: (Option<i64>, Option<i64>, Option<i64>),
    months: (Option<i64>, Option<i64>),
) -> Clock {
    Clock {
        today_start,
        week: match (mondays.1, mondays.2) {
            (Some(s), Some(e)) => Some((s, e)),
            _ => None,
        },
        previous_week_start: mondays.0,
        month: match months {
            (Some(a), Some(b)) => if b > i64::MIN {
                Some((a, (b - 1) as i64))
            } else {
                None
            },
            _ => None,
        },
    }
}

/// Executable form of [`clock_of`].
pub fn clock_from(
    today_start: Option<i64>,
    mondays: (Option<i64>, Option<i64>, Option<i64>),
    months: (Option<i64>, Option<i64>),
) -> (r: Clock)
    ensures
        r == clock_of(today_start, mondays, months),
{
    Clock {
        today_start,
        week: match (mondays.1, mondays.2) {
            (Some(s), Some(e)) => Some((s, e)),
            _ => None,
        },
        previous_week_start: mondays.0,
        month: match months {
            (Some(a), Some(b)) => if b > i64::MIN {
                Some((a, b - 1))
            } else {
                None
            },
            _ => None,
        },
    }
}

/// Local midnight of the Monday `weeks_back` weeks before the current week.
fn monday_midnight(today_start: i64, weekday: u32, weeks_back: i64) -> (r: Option<i64>)
    requires
        weekday < 7,
{
    let noon = match monday_noon(today_start, weekday, weeks_back) {
        Some(t) => t,
        None => return None,
    };
    match monday_date(local_fields(noon)) {
        Some((y, m, d)) => local_midnight(y, m, d),
        None => None,
    }
}

/// Local midnight of the first day of the month of `date`, and of the month after.
fn month_starts(date: Option<LocalFields>) -> (r: (Option<i64>, Option<i64>))
    requires
        date matches Some(f) ==> 1 <= f.month <= 12,
{
    match date {
        Some(f) => {
            let first = local_midnight(f.year, f.month, 1);
            let after = match next_month(f.year, f.month) {
                Some((y, m)) => local_midnight(y, m, 1),
                None => None,
            };
            (first, after)
        },
        None => (None, None),
    }
}

/// The calendar facts for window `w` at this moment.
fn clock_now(w: Window) -> (r: Clock)
    ensures
        exists|t: Option<i64>, mondays: (Option<i64>, Option<i64>, Option<i64>), months: (Option<i64>, Option<i64>)|
            r == #[trigger] clock_of(t, mondays, months),
{
    let now = now_timestamp();
    let (today, mondays, months) = match local_fields(now) {
        Some(f) => match local_midnight(f.year, f.month, f.day) {
            Some(t) => {
                let k: i64 = match w {
                    Window::Lifetime => 0,
                    Window::Week(k) => k as i64,
                };
                let mondays = (
                    monday_midnight(t, f.weekday, k + 1),
                    monday_midnight(t, f.weekday, k),
                    monday_midnight(t, f.weekday, k - 1),
                );
                let reference = match w {
                    Window::Lifetime => Some(f),
                    Window::Week(_) => match monday_noon(t, f.weekday, k) {
                        Some(noon) => local_fields(noon),
                        None => None,
                    },
                };
                (Some(t), mondays, month_starts(reference))
            },
            None => (None, (None, None, None), month_starts(Some(f))),
        },
        None => (None, (None, None, None), (None, None)),
    };
    clock_from(today, mondays, months)
}

/// Whether `ls` holds, for each entry of `es`, a local reading exactly when
/// it has a positive timestamp that the calendar can read, with its fields
/// in range.
pub open spec fn stamps_fit(es: Seq<HistoryEntry>, ls: Seq<Option<LocalStamp>>) -> bool {
    &&& ls.len() == es.len()
    &&& forall|i: int| 0 <= i < es.len() ==> {
        &&& (es[i].timestamp <= 0 ==> (#[trigger] ls[i]) is None)
        &&& (0 < es[i].timestamp <= CALENDAR_LIMIT ==> ls[i] is Some)
        &&& (ls[i] matches Some(s) ==> s.hour < 24 && s.weekday < 7 && 1 <= s.month <= 12 && 1 <= s.day <= 31)
    }
}

/// The local hour and weekday of each entry; `None` for an entry without a
/// timestamp or one that the calendar cannot read.
pub fn local_stamps(entries: &Vec<HistoryEntry>) -> (r: Vec<Option<LocalStamp>>)
    ensures
        stamps_fit(entries@, r@),
{
    let mut out: Vec<Option<LocalStamp>> = Vec::new();
    let mut i: usize = 0;
    while i < entries.len()
        invariant
            i <= entries.len(),
            out.len() == i,
            stamps_fit(entries@.take(i as int), out@),
        decreases entries.len() - i,
    {
        let ts = entries[i].timestamp;
        let stamp = if ts > 0 {
            match local_fields(ts) {
                Some(f) => Some(LocalStamp { hour: f.hour, weekday: f.weekday, month: f.month, day: f.day }),
                None => None,
            }
        } else {
            None
        };
        let ghost before = out@;
        out.push(stamp);
        assert forall|q: int| 0 <= q < i + 1 implies {
            &&& (entries@.take(i + 1)[q].timestamp <= 0 ==> (#[trigger] out@[q]) is None)
            &&& (0 < entries@.take(i + 1)[q].timestamp <= CALENDAR_LIMIT ==> out@[q] is Some)
            &&& (out@[q] matches Some(s) ==> s.hour < 24 && s.weekday < 7 && 1 <= s.month <= 12 && 1 <= s.day <= 31)
        } by {
            if q < i {
                assert(entries@.take(i + 1)[q] == entries@.take(i as int)[q]);
                assert(out@[q] == before[q]);
            }
        }
        i = i + 1;
    }
    assert(entries@.take(i as int) =~= entries@);
    out
}

/// The aggregates of `entries` in window `w`, read against the system clock
/// and local time zone: those that [`compute_at`] gives for a clock built
/// by [`clock_of`] from the calendar readings taken at the time of the
/// call, and for local stamps that every entry with a readable positive
/// timestamp has.
pub fn compute(entries: &Vec<HistoryEntry>, w: Window) -> (r: StatsSnapshot)
    ensures
        exists|t: Option<i64>, mondays: (Option<i64>, Option<i64>, Option<i64>), months: (Option<i64>, Option<i64>), ls: Seq<Option<LocalStamp>>|
            stamps_fit(entries@, ls) && #[trigger] describes(r, entries@, w, clock_of(t, mondays, months), ls),
{
    let c = clock_now(w);
    let stamps = local_stamps(entries);
    let r = compute_at(entries, w, &c, &stamps);
    let ghost (t, mondays, months) = choose|t: Option<i64>, mondays: (Option<i64>, Option<i64>, Option<i64>), months: (Option<i64>, Option<i64>)|
        c == #[trigger] clock_of(t, mondays, months);
    assert(describes(r, entries@, w, clock_of(t, mondays, months), stamps@));
    r
}

} // verus!
