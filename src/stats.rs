//! The statistics engine: aggregates over a sequence of entries for a
//! window of time (the whole history, or one calendar week).
//!
//! Everything that depends on the local time zone comes in as plain values:
//! a [`Clock`] with the boundaries of today, of the week and of the month in
//! view, and for each entry its local hour and weekday ([`LocalStamp`]).
//! [`compute_at`] is exact on those values; `calendar::compute` reads them
//! from the system clock and time zone.
use vstd::prelude::*;

use crate::history::HistoryEntry;
use crate::rank::{is_ranking, pairs_view, rank, strings_view};
use crate::text::{chars_of, first_word, first_word_range, text_of};

verus! {

/// Seconds in a day.
pub const DAY: i64 = 86400;

/// The span of time that a view covers.
#[derive(Debug, Clone, Copy, PartialEq, Eq)]
pub enum Window {
    /// The whole history.
    Lifetime,
    /// A calendar week, Monday 00:00:00 to Sunday 23:59:59 local time,
    /// counted back from the current week (0 is the current week).
    Week(u32),
}

/// The local reading of a timestamp: hour (0 to 23), weekday (0 for
/// Monday to 6 for Sunday), month (1 to 12) and day of the month.
#[derive(Debug, Clone, Copy, PartialEq, Eq)]
pub struct LocalStamp {
    pub hour: u32,
    pub weekday: u32,
    pub month: u32,
    pub day: u32,
}

/// Calendar facts for a window, as timestamps.
#[derive(Debug, Clone, Copy, PartialEq, Eq)]
pub struct Clock {
    /// Local midnight at the start of today; `None` if the time zone has none.
    pub today_start: Option<i64>,
    /// Local midnight of the Monday that starts the window's week (the
    /// current week for the whole history), and of the Monday after it.
    pub week: Option<(i64, i64)>,
    /// Local midnight of the Monday that starts the week before.
    pub previous_week_start: Option<i64>,
    /// First and last second of the local month that the window falls in.
    pub month: Option<(i64, i64)>,
}

/// Whether usage rose, fell or held between two halves or two weeks.
#[derive(Debug, Clone, Copy, PartialEq, Eq)]
pub enum Trend {
    Increasing,
    Decreasing,
    Steady,
    /// Too few entries to tell.
    NotApplicable,
}

/// How an hour's count compares with the mean over the active hours.
#[derive(Debug, Clone, Copy, PartialEq, Eq)]
pub enum HourLevel {
    Empty,
    Below,
    AtOrAbove,
}

/// The aggregates of one window.
#[derive(Debug, Clone)]
pub struct StatsSnapshot {
    /// Entries in the window.
    pub total: usize,
    /// Entries in the window with a timestamp.
    pub timestamped: usize,
    /// Entries since local midnight.
    pub today: usize,
    /// Entries in the window's week (the current week for the whole history).
    pub this_week: usize,
    /// Entries in the month in view.
    pub this_month: usize,
    /// Distinct commands in the window.
    pub unique: usize,
    /// Days from the first to the last timestamped entry, both counted.
    pub days_observed: i64,
    /// Earliest and latest timestamp in the window; 0 if none.
    pub first: i64,
    pub last: i64,
    /// Commands by frequency.
    pub commands: Vec<(String, usize)>,
    /// First words of the commands by frequency.
    pub categories: Vec<(String, usize)>,
    /// Timestamped entries of the window per local hour (24 buckets).
    pub hours: Vec<usize>,
    /// Timestamped entries of the window per weekday, Monday first (7 buckets).
    pub days: Vec<usize>,
    pub trend: Trend,
}

/// How many of the indices `0..n` satisfy `p`.
pub open spec fn count_where(n: int, p: spec_fn(int) -> bool) -> nat
    decreases n,
{
    if n <= 0 {
        0
    } else {
        count_where(n - 1, p) + if p(n - 1) {
            1nat
        } else {
            0nat
        }
    }
}

/// The indices among `0..n` that satisfy `p`, in order.
pub open spec fn selected(n: int, p: spec_fn(int) -> bool) -> Seq<int>
    decreases n,
{
    if n <= 0 {
        seq![]
    } else if p(n - 1) {
        selected(n - 1, p).push(n - 1)
    } else {
        selected(n - 1, p)
    }
}

/// Whether `ts` falls in the clock's week: from its Monday midnight up to,
/// not including, the next Monday midnight.
pub open spec fn in_week(c: Clock, ts: i64) -> bool {
    match c.week {
        Some((s, e)) => ts != 0 && s <= ts && ts < e,
        None => false,
    }
}

/// Whether `ts` falls in the week before the clock's week.
pub open spec fn in_previous_week(c: Clock, ts: i64) -> bool {
    match (c.previous_week_start, c.week) {
        (Some(p), Some((s, _))) => ts != 0 && p <= ts && ts < s,
        _ => false,
    }
}

pub open spec fn in_window(w: Window, c: Clock, ts: i64) -> bool {
    match w {
        Window::Lifetime => true,
        Window::Week(_) => in_week(c, ts),
    }
}

pub open spec fn is_today(c: Clock, ts: i64) -> bool {
    match c.today_start {
        Some(t) => ts != 0 && ts >= t,
        None => false,
    }
}

pub open spec fn in_month(c: Clock, ts: i64) -> bool {
    match c.month {
        Some((a, b)) => ts != 0 && a <= ts && ts <= b,
        None => false,
    }
}

pub open spec fn stamp_hour(s: Option<LocalStamp>) -> int {
    match s {
        Some(x) => x.hour as int,
        None => -1,
    }
}

pub open spec fn stamp_weekday(s: Option<LocalStamp>) -> int {
    match s {
        Some(x) => x.weekday as int,
        None => -1,
    }
}

/// The latest positive timestamp among the indices `0..n` that satisfy `p`; 0 if none.
pub open spec fn latest(es: Seq<HistoryEntry>, n: int, p: spec_fn(int) -> bool) -> i64
    decreases n,
{
    if n <= 0 {
        0
    } else {
        let m = latest(es, n - 1, p);
        if p(n - 1) && es[n - 1].timestamp > m {
            es[n - 1].timestamp
        } else {
            m
        }
    }
}

/// The earliest positive timestamp among the indices `0..n` that satisfy `p`; 0 if none.
pub open spec fn earliest(es: Seq<HistoryEntry>, n: int, p: spec_fn(int) -> bool) -> i64
    decreases n,
{
    if n <= 0 {
        0
    } else {
        let m = earliest(es, n - 1, p);
        let t = es[n - 1].timestamp;
        if p(n - 1) && t > 0 && (m == 0 || t < m) {
            t
        } else {
            m
        }
    }
}

/// Days from `first` to `last`, both counted; 1 for entries without
/// timestamps, 0 for none.
pub open spec fn days_spanned(first: i64, last: i64, total: int) -> i64 {
    if last > 0 && first > 0 {
        ((last - first) / (DAY as int) + 1) as i64
    } else if total > 0 {
        1
    } else {
        0
    }
}

/// `new` against `old`: above 120% rises, below 80% falls (both thresholds
/// truncated to integers).
pub open spec fn trend_of(new: int, old: int) -> Trend {
    if new > old * 12 / 10 {
        Trend::Increasing
    } else if new < old * 8 / 10 {
        Trend::Decreasing
    } else {
        Trend::Steady
    }
}

/// The category of a command: its first word, or `other` when it has none.
pub open spec fn category_of(cmd: Seq<char>) -> Seq<char> {
    match first_word(cmd) {
        Some(w) => w,
        None => "other"@,
    }
}

pub open spec fn active_at(es: Seq<HistoryEntry>, w: Window, c: Clock, i: int) -> bool {
    in_window(w, c, es[i].timestamp)
}

/// The commands of the entries in the window, in order.
pub open spec fn window_commands(es: Seq<HistoryEntry>, w: Window, c: Clock) -> Seq<Seq<char>> {
    selected(es.len() as int, |i: int| active_at(es, w, c, i)).map_values(|i: int| es[i].command@)
}

/// The categories of the entries in the window, in order.
pub open spec fn window_categories(es: Seq<HistoryEntry>, w: Window, c: Clock) -> Seq<Seq<char>> {
    selected(es.len() as int, |i: int| active_at(es, w, c, i)).map_values(
        |i: int| category_of(es[i].command@),
    )
}

/// Timestamped entries of the window whose local hour is `h`.
pub open spec fn hour_count(
    es: Seq<HistoryEntry>,
    ls: Seq<Option<LocalStamp>>,
    w: Window,
    c: Clock,
    h: int,
) -> nat {
    count_where(
        es.len() as int,
        |i: int| active_at(es, w, c, i) && es[i].timestamp > 0 && stamp_hour(ls[i]) == h,
    )
}

/// Timestamped entries of the window whose local weekday is `d`.
pub open spec fn weekday_count(
    es: Seq<HistoryEntry>,
    ls: Seq<Option<LocalStamp>>,
    w: Window,
    c: Clock,
    d: int,
) -> nat {
    count_where(
        es.len() as int,
        |i: int| active_at(es, w, c, i) && es[i].timestamp > 0 && stamp_weekday(ls[i]) == d,
    )
}

pub open spec fn week_count(es: Seq<HistoryEntry>, c: Clock) -> nat {
    count_where(es.len() as int, |i: int| in_week(c, es[i].timestamp))
}

pub open spec fn previous_week_count(es: Seq<HistoryEntry>, c: Clock) -> nat {
    count_where(es.len() as int, |i: int| in_previous_week(c, es[i].timestamp))
}

/// The trend of the window: for the whole history, the second half of the
/// entries against the first; for a week, the week against the one before.
/// Ten entries or fewer give no trend.
pub open spec fn window_trend(es: Seq<HistoryEntry>, w: Window, c: Clock, total: int) -> Trend {
    if total <= 10 {
        Trend::NotApplicable
    } else {
        match w {
            Window::Lifetime => trend_of(total - total / 2, total / 2),
            Window::Week(_) => trend_of(week_count(es, c) as int, previous_week_count(es, c) as int),
        }
    }
}

fn is_in_week(c: &Clock, ts: i64) -> (r: bool)
    ensures
        r == in_week(*c, ts),
{
    match c.week {
        Some((s, e)) => ts != 0 && s <= ts && ts < e,
        None => false,
    }
}

fn is_in_window(w: Window, c: &Clock, ts: i64) -> (r: bool)
    ensures
        r == in_window(w, *c, ts),
{
    match w {
        Window::Lifetime => true,
        Window::Week(_) => is_in_week(c, ts),
    }
}

/// The number of entries in the clock's week, or in the week before it.
fn count_week(entries: &Vec<HistoryEntry>, c: &Clock, previous: bool) -> (r: usize)
    ensures
        !previous ==> r == week_count(entries@, *c),
        previous ==> r == previous_week_count(entries@, *c),
{
    let ghost es = entries@;
    let ghost p = if previous {
        |j: int| in_previous_week(*c, es[j].timestamp)
    } else {
        |j: int| in_week(*c, es[j].timestamp)
    };
    let mut cnt: usize = 0;
    let mut i: usize = 0;
    while i < entries.len()
        invariant
            i <= entries.len(),
            es == entries@,
            p == if previous {
                |j: int| in_previous_week(*c, es[j].timestamp)
            } else {
                |j: int| in_week(*c, es[j].timestamp)
            },
            cnt <= i,
            cnt == count_where(i as int, p),
        decreases entries.len() - i,
    {
        let ts = entries[i].timestamp;
        let hit = if previous {
            match (c.previous_week_start, c.week) {
                (Some(p), Some((s, _))) => ts != 0 && p <= ts && ts < s,
                _ => false,
            }
        } else {
            is_in_week(c, ts)
        };
        if hit {
            cnt = cnt + 1;
        }
        i = i + 1;
    }
    cnt
}

fn count_today(entries: &Vec<HistoryEntry>, c: &Clock) -> (r: usize)
    ensures
        r == count_where(entries@.len() as int, |j: int| is_today(*c, entries@[j].timestamp)),
{
    let ghost es = entries@;
    let mut cnt: usize = 0;
    let mut i: usize = 0;
    while i < entries.len()
        invariant
            i <= entries.len(),
            es == entries@,
            cnt <= i,
            cnt == count_where(i as int, |j: int| is_today(*c, es[j].timestamp)),
        decreases entries.len() - i,
    {
        let ts = entries[i].timestamp;
        let hit = match c.today_start {
            Some(t) => ts != 0 && ts >= t,
            None => false,
        };
        if hit {
            cnt = cnt + 1;
        }
        i = i + 1;
    }
    cnt
}

fn count_month(entries: &Vec<HistoryEntry>, c: &Clock) -> (r: usize)
    ensures
        r == count_where(entries@.len() as int, |j: int| in_month(*c, entries@[j].timestamp)),
{
    let ghost es = entries@;
    let mut cnt: usize = 0;
    let mut i: usize = 0;
    while i < entries.len()
        invariant
            i <= entries.len(),
            es == entries@,
            cnt <= i,
            cnt == count_where(i as int, |j: int| in_month(*c, es[j].timestamp)),
        decreases entries.len() - i,
    {
        let ts = entries[i].timestamp;
        let hit = match c.month {
            Some((a, b)) => ts != 0 && a <= ts && ts <= b,
            None => false,
        };
        if hit {
            cnt = cnt + 1;
        }
        i = i + 1;
    }
    cnt
}

/// The category of `cmd`: its first word, or `other`.
fn category(cmd: &String) -> (r: String)
    ensures
        r@ == category_of(cmd@),
{
    let cs = chars_of(cmd.as_str());
    match first_word_range(&cs) {
        Some((a, b)) => text_of(cmd.as_str(), a, b),
        None => "other".to_owned(),
    }
}

/// The commands and the categories of the entries in the window, in order.
fn window_keys(entries: &Vec<HistoryEntry>, w: Window, c: &Clock) -> (r: (Vec<String>, Vec<String>))
    ensures
        strings_view(r.0@) == window_commands(entries@, w, *c),
        strings_view(r.1@) == window_categories(entries@, w, *c),
{
    let ghost es = entries@;
    let ghost p = |i: int| active_at(es, w, *c, i);
    let mut cmds: Vec<String> = Vec::new();
    let mut cats: Vec<String> = Vec::new();
    let mut i: usize = 0;
    while i < entries.len()
        invariant
            i <= entries.len(),
            es == entries@,
            p == (|i: int| active_at(es, w, *c, i)),
            strings_view(cmds@) == selected(i as int, p).map_values(|j: int| es[j].command@),
            strings_view(cats@) == selected(i as int, p).map_values(|j: int| category_of(es[j].command@)),
        decreases entries.len() - i,
    {
        if is_in_window(w, c, entries[i].timestamp) {
            let ghost before = selected(i as int, p);
            let ghost v0 = strings_view(cmds@);
            let ghost v1 = strings_view(cats@);
            cmds.push(entries[i].command.clone());
            cats.push(category(&entries[i].command));
            assert(selected(i + 1, p) == before.push(i as int));
            assert(strings_view(cmds@) =~= v0.push(es[i as int].command@));
            assert(strings_view(cats@) =~= v1.push(category_of(es[i as int].command@)));
            assert(before.push(i as int).map_values(|j: int| es[j].command@) =~= before.map_values(
                |j: int| es[j].command@,
            ).push(es[i as int].command@));
            assert(before.push(i as int).map_values(|j: int| category_of(es[j].command@))
                =~= before.map_values(|j: int| category_of(es[j].command@)).push(
                category_of(es[i as int].command@),
            ));
        }
        i = i + 1;
    }
    (cmds, cats)
}

/// The number of entries in the window, with and without a timestamp.
fn window_sizes(entries: &Vec<HistoryEntry>, w: Window, c: &Clock) -> (r: (usize, usize))
    ensures
        r.0 == selected(entries@.len() as int, |i: int| active_at(entries@, w, *c, i)).len(),
        r.1 == count_where(entries@.len() as int, |i: int| active_at(entries@, w, *c, i) && entries@[i].timestamp > 0),
{
    let ghost es = entries@;
    let mut total: usize = 0;
    let mut stamped: usize = 0;
    let mut i: usize = 0;
    while i < entries.len()
        invariant
            i <= entries.len(),
            es == entries@,
            total <= i,
            stamped <= i,
            total == selected(i as int, |i: int| active_at(es, w, *c, i)).len(),
            stamped == count_where(i as int, |i: int| active_at(es, w, *c, i) && es[i].timestamp > 0),
        decreases entries.len() - i,
    {
        let ts = entries[i].timestamp;
        if is_in_window(w, c, ts) {
            total = total + 1;
            if ts > 0 {
                stamped = stamped + 1;
            }
        }
        i = i + 1;
    }
    (total, stamped)
}

/// The earliest and the latest positive timestamp in the window; 0 if none.
fn window_span(entries: &Vec<HistoryEntry>, w: Window, c: &Clock) -> (r: (i64, i64))
    ensures
        r.0 == earliest(entries@, entries@.len() as int, |i: int| active_at(entries@, w, *c, i)),
        r.1 == latest(entries@, entries@.len() as int, |i: int| active_at(entries@, w, *c, i)),
{
    let ghost es = entries@;
    let mut lo: i64 = 0;
    let mut hi: i64 = 0;
    let mut i: usize = 0;
    while i < entries.len()
        invariant
            i <= entries.len(),
            es == entries@,
            lo == earliest(es, i as int, |i: int| active_at(es, w, *c, i)),
            hi == latest(es, i as int, |i: int| active_at(es, w, *c, i)),
        decreases entries.len() - i,
    {
        let t = entries[i].timestamp;
        if is_in_window(w, c, t) {
            if t > 0 && (lo == 0 || t < lo) {
                lo = t;
            }
            if t > hi {
                hi = t;
            }
        }
        i = i + 1;
    }
    (lo, hi)
}

/// Timestamped entries of the window in local hour `h`, or on weekday `h`
/// when `by_weekday`.
fn count_stamped(
    entries: &Vec<HistoryEntry>,
    local: &Vec<Option<LocalStamp>>,
    w: Window,
    c: &Clock,
    h: u32,
    by_weekday: bool,
) -> (r: usize)
    requires
        local.len() == entries.len(),
    ensures
        !by_weekday ==> r == hour_count(entries@, local@, w, *c, h as int),
        by_weekday ==> r == weekday_count(entries@, local@, w, *c, h as int),
{
    let ghost es = entries@;
    let ghost ls = local@;
    let ghost p = if by_weekday {
        |i: int| active_at(es, w, *c, i) && es[i].timestamp > 0 && stamp_weekday(ls[i]) == h as int
    } else {
        |i: int| active_at(es, w, *c, i) && es[i].timestamp > 0 && stamp_hour(ls[i]) == h as int
    };
    let mut cnt: usize = 0;
    let mut i: usize = 0;
    while i < entries.len()
        invariant
            i <= entries.len() == local.len(),
            es == entries@,
            ls == local@,
            p == if by_weekday {
                |i: int| active_at(es, w, *c, i) && es[i].timestamp > 0 && stamp_weekday(ls[i]) == h as int
            } else {
                |i: int| active_at(es, w, *c, i) && es[i].timestamp > 0 && stamp_hour(ls[i]) == h as int
            },
            cnt <= i,
            cnt == count_where(i as int, p),
        decreases entries.len() - i,
    {
        let ts = entries[i].timestamp;
        let hit = match local[i] {
            Some(st) => if by_weekday {
                st.weekday == h
            } else {
                st.hour == h
            },
            None => false,
        };
        if ts > 0 && hit && is_in_window(w, c, ts) {
            cnt = cnt + 1;
        }
        i = i + 1;
    }
    cnt
}

proof fn lemma_span_order(es: Seq<HistoryEntry>, n: int, p: spec_fn(int) -> bool)
    ensures
        earliest(es, n, p) >= 0,
        latest(es, n, p) >= 0,
        earliest(es, n, p) > 0 ==> latest(es, n, p) >= earliest(es, n, p),
    decreases n,
{
    if n > 0 {
        lemma_span_order(es, n - 1, p);
    }
}

fn trend_between(new: usize, old: usize) -> (r: Trend)
    ensures
        r == trend_of(new as int, old as int),
{
    let n = new as u128;
    let o = old as u128;
    if n > o * 12 / 10 {
        Trend::Increasing
    } else if n < o * 8 / 10 {
        Trend::Decreasing
    } else {
        Trend::Steady
    }
}

/// Whether `r` holds the aggregates of the entries `es` in window `w`,
/// given the calendar facts `c` and the local stamps `ls` of the entries.
pub open spec fn describes(
    r: StatsSnapshot,
    es: Seq<HistoryEntry>,
    w: Window,
    c: Clock,
    ls: Seq<Option<LocalStamp>>,
) -> bool {
    let n = es.len() as int;
    let act = |i: int| active_at(es, w, c, i);
    &&& r.total == selected(n, act).len()
    &&& r.timestamped == count_where(n, |i: int| active_at(es, w, c, i) && es[i].timestamp > 0)
    &&& r.today == count_where(n, |i: int| is_today(c, es[i].timestamp))
    &&& r.this_week == week_count(es, c)
    &&& r.this_month == count_where(n, |i: int| in_month(c, es[i].timestamp))
    &&& is_ranking(window_commands(es, w, c), pairs_view(r.commands@))
    &&& is_ranking(window_categories(es, w, c), pairs_view(r.categories@))
    &&& r.unique == r.commands.len()
    &&& r.first == earliest(es, n, act)
    &&& r.last == latest(es, n, act)
    &&& r.days_observed == days_spanned(r.first, r.last, r.total as int)
    &&& r.hours.len() == 24
    &&& forall|h: int| 0 <= h < 24 ==> #[trigger] r.hours@[h] == hour_count(es, ls, w, c, h)
    &&& r.days.len() == 7
    &&& forall|d: int| 0 <= d < 7 ==> #[trigger] r.days@[d] == weekday_count(es, ls, w, c, d)
    &&& r.trend == window_trend(es, w, c, r.total as int)
}

/// The aggregates of the entries in window `w`, given the calendar facts
/// `c` and, for each entry, its local hour and weekday (`None` where the
/// time zone gives none).
pub fn compute_at(
    entries: &Vec<HistoryEntry>,
    w: Window,
    c: &Clock,
    local: &Vec<Option<LocalStamp>>,
) -> (r: StatsSnapshot)
    requires
        local.len() == entries.len(),
    ensures
        describes(r, entries@, w, *c, local@),
{
    let (total, timestamped) = window_sizes(entries, w, c);
    let (first, last) = window_span(entries, w, c);
    let (cmds, cats) = window_keys(entries, w, c);
    let commands = rank(&cmds);
    let categories = rank(&cats);
    let this_week = count_week(entries, c, false);
    proof {
        lemma_span_order(entries@, entries@.len() as int, |i: int| active_at(entries@, w, *c, i));
    }
    let days_observed = if last > 0 && first > 0 {
        (last - first) / DAY + 1
    } else if total > 0 {
        1
    } else {
        0
    };
    let mut hours: Vec<usize> = Vec::new();
    let mut h: u32 = 0;
    while h < 24
        invariant
            h <= 24,
            hours.len() == h,
            local.len() == entries.len(),
            forall|q: int| 0 <= q < h ==> #[trigger] hours[q] == hour_count(entries@, local@, w, *c, q),
        decreases 24 - h,
    {
        hours.push(count_stamped(entries, local, w, c, h, false));
        h = h + 1;
    }
    let mut days: Vec<usize> = Vec::new();
    let mut d: u32 = 0;
    while d < 7
        invariant
            d <= 7,
            days.len() == d,
            local.len() == entries.len(),
            forall|q: int| 0 <= q < d ==> #[trigger] days[q] == weekday_count(entries@, local@, w, *c, q),
        decreases 7 - d,
    {
        days.push(count_stamped(entries, local, w, c, d, true));
        d = d + 1;
    }
    let trend = if total <= 10 {
        Trend::NotApplicable
    } else {
        match w {
            Window::Lifetime => trend_between(total - total / 2, total / 2),
            Window::Week(_) => trend_between(this_week, count_week(entries, c, true)),
        }
    };
    let unique = commands.len();
    assert(days_observed == days_spanned(first, last, total as int));
    StatsSnapshot {
        total,
        timestamped,
        today: count_today(entries, c),
        this_week,
        this_month: count_month(entries, c),
        unique,
        days_observed,
        first,
        last,
        commands,
        categories,
        hours,
        days,
        trend,
    }
}

/// The largest of `s`; 0 if `s` is empty.
pub open spec fn max_of(s: Seq<usize>) -> nat
    decreases s.len(),
{
    if s.len() == 0 {
        0
    } else if s.last() > max_of(s.drop_last()) {
        s.last() as nat
    } else {
        max_of(s.drop_last())
    }
}

/// The sum of `s`.
pub open spec fn sum_of(s: Seq<usize>) -> nat
    decreases s.len(),
{
    if s.len() == 0 {
        0
    } else {
        sum_of(s.drop_last()) + s.last() as nat
    }
}

/// How many of `s` are not zero.
pub open spec fn nonzero_of(s: Seq<usize>) -> nat
    decreases s.len(),
{
    if s.len() == 0 {
        0
    } else {
        nonzero_of(s.drop_last()) + if s.last() > 0 {
            1nat
        } else {
            0nat
        }
    }
}

/// Whether bucket `h` is a peak: its count exceeds two thirds of the largest
/// count, the threshold truncated to an integer.
pub open spec fn is_peak(s: Seq<usize>, h: int) -> bool {
    s[h] > (2 * max_of(s)) / 3
}

/// How bucket `h` compares with the mean over the non-empty buckets.
pub open spec fn level_of(s: Seq<usize>, h: int) -> HourLevel {
    if s[h] == 0 {
        HourLevel::Empty
    } else if s[h] * nonzero_of(s) < sum_of(s) {
        HourLevel::Below
    } else {
        HourLevel::AtOrAbove
    }
}

/// `part` as a whole percentage of `whole`, truncated; 0 when `whole` is 0.
pub open spec fn percent_spec(part: int, whole: int) -> int {
    if whole == 0 {
        0
    } else {
        part * 100 / whole
    }
}

proof fn lemma_max_step(s: Seq<usize>, i: int)
    requires
        0 <= i < s.len(),
    ensures
        max_of(s.take(i + 1)) == if s[i] > max_of(s.take(i)) {
            s[i] as nat
        } else {
            max_of(s.take(i))
        },
        sum_of(s.take(i + 1)) == sum_of(s.take(i)) + s[i],
        nonzero_of(s.take(i + 1)) == nonzero_of(s.take(i)) + if s[i] > 0 {
            1nat
        } else {
            0nat
        },
{
    assert(s.take(i + 1).drop_last() =~= s.take(i));
}

proof fn lemma_below_sum(s: Seq<usize>, i: int)
    requires
        0 <= i < s.len(),
    ensures
        s[i] <= sum_of(s),
    decreases s.len(),
{
    if i < s.len() - 1 {
        lemma_below_sum(s.drop_last(), i);
    }
}

/// The number of weeks that `days` days of history cover, rounded up, and
/// at least one: the divisor of the weekly average.
pub fn weeks_observed(days: i64) -> (r: i64)
    ensures
        r >= 1,
        days <= 7 ==> r == 1,
        days > 7 ==> r == (days + 6) / 7,
        days > 7 ==> 7 * (r - 1) < days <= 7 * r,
{
    if days <= 7 {
        1
    } else {
        days / 7 + if days % 7 == 0 { 0 } else { 1 }
    }
}

/// `part` as a whole percentage of `whole`, truncated; 0 when `whole` is 0.
pub fn percent(part: usize, whole: usize) -> (r: usize)
    requires
        part <= whole,
    ensures
        r == percent_spec(part as int, whole as int),
        r <= 100,
{
    if whole == 0 {
        0
    } else {
        let p = part as u128 * 100;
        assert(p / (whole as u128) <= 100) by (nonlinear_arith)
            requires
                p == part * 100,
                part <= whole,
                whole > 0,
        ;
        (p / whole as u128) as usize
    }
}

/// The largest count, the sum and the number of non-empty buckets of `s`.
fn bucket_totals(s: &Vec<usize>) -> (r: (usize, u128, u128))
    requires
        s.len() <= 65536,
    ensures
        r.0 == max_of(s@),
        r.1 == sum_of(s@),
        r.2 == nonzero_of(s@),
        r.2 <= s.len(),
{
    let mut m: usize = 0;
    let mut sum: u128 = 0;
    let mut nz: u128 = 0;
    let mut i: usize = 0;
    while i < s.len()
        invariant
            i <= s.len() <= 65536,
            m == max_of(s@.take(i as int)),
            sum == sum_of(s@.take(i as int)),
            sum <= i * 18446744073709551615,
            nz == nonzero_of(s@.take(i as int)),
            nz <= i,
        decreases s.len() - i,
    {
        proof {
            lemma_max_step(s@, i as int);
        }
        if s[i] > m {
            m = s[i];
        }
        assert(sum + s@[i as int] <= (i + 1) * 18446744073709551615) by (nonlinear_arith)
            requires
                sum <= i * 18446744073709551615,
                s[i as int] <= 18446744073709551615,
        ;
        sum = sum + s[i] as u128;
        if s[i] > 0 {
            nz = nz + 1;
        }
        i = i + 1;
    }
    assert(s@.take(i as int) =~= s@);
    (m, sum, nz)
}

/// The peak buckets of `s` (the peak hours, for the hourly counts): those
/// whose count exceeds two thirds of the largest count, the threshold
/// truncated to an integer, in order.
pub fn peak_hours(s: &Vec<usize>) -> (r: Vec<usize>)
    requires
        s.len() <= 65536,
    ensures
        r@.map_values(|h: usize| h as int) == selected(s.len() as int, |h: int| is_peak(s@, h)),
{
    let (m, _, _) = bucket_totals(s);
    let threshold = (2 * m as u128) / 3;
    let mut out: Vec<usize> = Vec::new();
    let mut i: usize = 0;
    while i < s.len()
        invariant
            i <= s.len(),
            threshold == (2 * max_of(s@)) / 3,
            out@.map_values(|h: usize| h as int) == selected(i as int, |h: int| is_peak(s@, h)),
        decreases s.len() - i,
    {
        if s[i] as u128 > threshold {
            let ghost before = out@;
            out.push(i);
            assert(out@.map_values(|h: usize| h as int) =~= before.map_values(|h: usize| h as int).push(i as int));
        }
        i = i + 1;
    }
    out
}

/// The last bucket of `s` that holds the largest count, with that count;
/// `None` when every count is 0 (or `s` is empty).
pub fn last_peak(s: &Vec<usize>) -> (r: Option<(usize, usize)>)
    ensures
        r is None <==> max_of(s@) == 0,
        r matches Some((i, c)) ==> i < s.len() && c == max_of(s@) && s[i as int] == c && forall|j: int| i < j < s.len() ==> s[j] < c,
{
    let mut best: usize = 0;
    let mut at: usize = 0;
    let mut i: usize = 0;
    while i < s.len()
        invariant
            i <= s.len(),
            best == max_of(s@.take(i as int)),
            i > 0 ==> at < i && s[at as int] == best,
            forall|j: int| at < j < i ==> s[j] < best,
        decreases s.len() - i,
    {
        proof {
            lemma_max_step(s@, i as int);
        }
        if s[i] >= best {
            best = s[i];
            at = i;
        }
        i = i + 1;
    }
    assert(s@.take(i as int) =~= s@);
    if best == 0 {
        None
    } else {
        Some((at, best))
    }
}

/// How each bucket of `s` compares with the mean count over its non-empty
/// buckets: empty, below the mean, or at or above it.
pub fn hour_levels(s: &Vec<usize>) -> (r: Vec<HourLevel>)
    requires
        s.len() <= 65536,
    ensures
        r.len() == s.len(),
        forall|h: int| 0 <= h < s.len() ==> #[trigger] r[h] == level_of(s@, h),
{
    let (_, sum, nz) = bucket_totals(s);
    let mut out: Vec<HourLevel> = Vec::new();
    let mut i: usize = 0;
    while i < s.len()
        invariant
            i <= s.len() <= 65536,
            sum == sum_of(s@),
            nz == nonzero_of(s@),
            nz <= 65536,
            out.len() == i,
            forall|h: int| 0 <= h < i ==> #[trigger] out[h] == level_of(s@, h),
        decreases s.len() - i,
    {
        let level = if s[i] == 0 {
            HourLevel::Empty
        } else {
            assert(s[i as int] * nz <= 18446744073709551615 * 65536) by (nonlinear_arith)
                requires
                    s[i as int] <= 18446744073709551615,
                    nz <= 65536,
            ;
            if (s[i] as u128) * nz < sum {
                HourLevel::Below
            } else {
                HourLevel::AtOrAbove
            }
        };
        out.push(level);
        i = i + 1;
    }
    out
}

/// Each count of `s` as a whole percentage of their sum, truncated; all 0
/// when the sum is 0.
pub fn shares(s: &Vec<usize>) -> (r: Vec<usize>)
    requires
        s.len() <= 65536,
    ensures
        r.len() == s.len(),
        forall|i: int| 0 <= i < s.len() ==> #[trigger] r[i] == percent_spec(s[i] as int, sum_of(s@) as int),
{
    let (_, sum, _) = bucket_totals(s);
    let mut out: Vec<usize> = Vec::new();
    let mut i: usize = 0;
    while i < s.len()
        invariant
            i <= s.len(),
            sum == sum_of(s@),
            out.len() == i,
            forall|h: int| 0 <= h < i ==> #[trigger] out[h] == percent_spec(s[h] as int, sum_of(s@) as int),
        decreases s.len() - i,
    {
        if sum == 0 {
            out.push(0);
        } else {
            proof {
                lemma_below_sum(s@, i as int);
            }
            let p = s[i] as u128 * 100;
            assert(p / sum <= 100) by (nonlinear_arith)
                requires
                    p == s[i as int] * 100,
                    s[i as int] <= sum,
                    sum > 0,
            ;
            out.push((p / sum) as usize);
        }
        i = i + 1;
    }
    out
}

proof fn lemma_equal_buckets(s: Seq<usize>, c: usize)
    requires
        forall|i: int| 0 <= i < s.len() ==> #[trigger] s[i] == c,
    ensures
        max_of(s) == if s.len() == 0 { 0 } else { c as nat },
        sum_of(s) == s.len() * c,
        nonzero_of(s) == if c > 0 { s.len() } else { 0 },
    decreases s.len(),
{
    if s.len() > 0 {
        lemma_equal_buckets(s.drop_last(), c);
        assert(s.last() == c);
        assert((s.len() - 1) * c + c == s.len() * c) by (nonlinear_arith);
    }
}

/// When every bucket holds the same positive count, every bucket is a peak
/// (two thirds of the count, truncated, is below it) and none is below the mean.
pub proof fn equal_buckets_all_peak(s: Seq<usize>, c: usize)
    requires
        c > 0,
        forall|i: int| 0 <= i < s.len() ==> #[trigger] s[i] == c,
    ensures
        forall|h: int| 0 <= h < s.len() ==> #[trigger] is_peak(s, h) && level_of(s, h) == HourLevel::AtOrAbove,
{
    lemma_equal_buckets(s, c);
    assert forall|h: int| 0 <= h < s.len() implies #[trigger] is_peak(s, h) && level_of(s, h) == HourLevel::AtOrAbove by {
        assert(s[h] * nonzero_of(s) == sum_of(s)) by (nonlinear_arith)
            requires
                s[h] == c,
                nonzero_of(s) == s.len(),
                sum_of(s) == s.len() * c,
        ;
    }
}

/// Exactly one index below `n`, `h`, satisfies `p`: the count is one.
pub(crate) proof fn lemma_count_single(n: int, p: spec_fn(int) -> bool, h: int)
    requires
        0 <= h < n,
        forall|i: int| 0 <= i < n ==> (#[trigger] p(i) <==> i == h),
    ensures
        count_where(n, p) == 1,
    decreases n,
{
    if n - 1 > h {
        lemma_count_single(n - 1, p, h);
    } else {
        lemma_count_none(n - 1, p);
    }
}

proof fn lemma_count_none(n: int, p: spec_fn(int) -> bool)
    requires
        forall|i: int| 0 <= i < n ==> !#[trigger] p(i),
    ensures
        count_where(n, p) == 0,
    decreases n,
{
    if n > 0 {
        lemma_count_none(n - 1, p);
    }
}

/// Twenty-four timestamped entries, one in each local hour, fill every
/// hourly bucket with one entry; so every hour is a peak (two thirds of 1
/// truncates to 0) and none is below the mean.
pub proof fn one_entry_per_hour(r: StatsSnapshot, es: Seq<HistoryEntry>, c: Clock, ls: Seq<Option<LocalStamp>>)
    requires
        describes(r, es, Window::Lifetime, c, ls),
        es.len() == 24,
        ls.len() == 24,
        forall|h: int| 0 <= h < 24 ==> es[h].timestamp > 0 && stamp_hour(#[trigger] ls[h]) == h,
    ensures
        forall|h: int| 0 <= h < 24 ==> #[trigger] r.hours@[h] == 1,
        forall|h: int| 0 <= h < 24 ==> #[trigger] is_peak(r.hours@, h) && level_of(r.hours@, h) == HourLevel::AtOrAbove,
{
    assert forall|h: int| 0 <= h < 24 implies #[trigger] r.hours@[h] == 1 by {
        let p = |i: int| active_at(es, Window::Lifetime, c, i) && es[i].timestamp > 0 && stamp_hour(ls[i]) == h;
        assert forall|i: int| 0 <= i < 24 implies (#[trigger] p(i) <==> i == h) by {
            assert(stamp_hour(ls[i]) == i);
        }
        lemma_count_single(24, p, h);
    }
    equal_buckets_all_peak(r.hours@, 1);
}

/// On an empty history every figure is zero, no hour or weekday holds an
/// entry, and there is no trend, whatever the window and the calendar.
pub proof fn empty_history(r: StatsSnapshot, w: Window, c: Clock, ls: Seq<Option<LocalStamp>>)
    requires
        describes(r, Seq::<HistoryEntry>::empty(), w, c, ls),
    ensures
        r.total == 0 && r.timestamped == 0 && r.today == 0 && r.this_week == 0 && r.this_month == 0,
        r.unique == 0 && r.commands.len() == 0 && r.categories.len() == 0,
        r.first == 0 && r.last == 0 && r.days_observed == 0,
        max_of(r.hours@) == 0 && max_of(r.days@) == 0,
        r.trend == Trend::NotApplicable,
{
    let es = Seq::<HistoryEntry>::empty();
    assert(window_commands(es, w, c).len() == 0);
    assert(window_categories(es, w, c).len() == 0);
    if r.commands.len() > 0 {
        assert(pairs_view(r.commands@)[0].1 > 0);
    }
    if r.categories.len() > 0 {
        assert(pairs_view(r.categories@)[0].1 > 0);
    }
    assert forall|h: int| 0 <= h < r.hours@.len() implies #[trigger] r.hours@[h] == 0usize by {
        assert(hour_count(es, ls, w, c, h) == 0);
    }
    assert forall|d: int| 0 <= d < r.days@.len() implies #[trigger] r.days@[d] == 0usize by {
        assert(weekday_count(es, ls, w, c, d) == 0);
    }
    lemma_equal_buckets(r.hours@, 0);
    lemma_equal_buckets(r.days@, 0);
}

/// A week window holds its first second, Monday 00:00:00 local time, and
/// its last, the second before the next Monday 00:00:00; the second before
/// it and the next Monday's first second fall outside.
pub proof fn week_window_bounds(c: Clock, k: u32, start: i64, next: i64)
    requires
        c.week == Some((start, next)),
        0 < start < next,
    ensures
        in_window(Window::Week(k), c, start),
        in_window(Window::Week(k), c, (next - 1) as i64),
        !in_window(Window::Week(k), c, (start - 1) as i64),
        !in_window(Window::Week(k), c, next),
{
}

} // verus!
