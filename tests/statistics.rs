use cli_wrapped::calendar::{
    clock_from, compute, describe_timestamp, format_timestamp, local_stamps, monday_date, monday_noon,
    next_month, LocalFields,
};
use cli_wrapped::history::HistoryEntry;
use cli_wrapped::rank::rank;
use cli_wrapped::stats::{
    compute_at, hour_levels, last_peak, peak_hours, percent, shares, weeks_observed, Clock,
    HourLevel, LocalStamp, Trend, Window,
};

/// Monday 20 November 2023, 00:00:00 UTC.
const MONDAY: i64 = 1700438400;

fn entry(ts: i64, cmd: &str) -> HistoryEntry {
    HistoryEntry {
        timestamp: ts,
        command: cmd.to_string(),
        directory: None,
        duration: None,
        exit_code: None,
    }
}

fn utc_stamp(ts: i64) -> Option<LocalStamp> {
    if ts <= 0 {
        return None;
    }
    let day = ts.div_euclid(86400);
    Some(LocalStamp {
        hour: (ts.rem_euclid(86400) / 3600) as u32,
        weekday: ((day + 3).rem_euclid(7)) as u32,
        month: 11,
        day: 1,
    })
}

fn stamps(entries: &[HistoryEntry]) -> Vec<Option<LocalStamp>> {
    entries.iter().map(|e| utc_stamp(e.timestamp)).collect()
}

/// Wednesday of the week that starts at `MONDAY`, looking at the week
/// `back` weeks before it.
fn clock_back(back: i64) -> Clock {
    let start = MONDAY - 604800 * back;
    Clock {
        today_start: Some(MONDAY + 2 * 86400),
        week: Some((start, start + 604800)),
        previous_week_start: Some(start - 604800),
        month: Some((MONDAY - 19 * 86400, MONDAY + 11 * 86400 - 1)),
    }
}

fn wednesday_clock() -> Clock {
    clock_back(0)
}

fn names(r: &[(String, usize)]) -> Vec<(&str, usize)> {
    r.iter().map(|(s, c)| (s.as_str(), *c)).collect()
}

#[test]
fn scenario_empty_history() {
    let snap = compute(&Vec::new(), Window::Lifetime);
    assert_eq!(snap.total, 0);
    assert_eq!(snap.timestamped, 0);
    assert_eq!(snap.today, 0);
    assert_eq!(snap.this_week, 0);
    assert_eq!(snap.this_month, 0);
    assert_eq!(snap.unique, 0);
    assert_eq!(snap.days_observed, 0);
    assert_eq!(snap.first, 0);
    assert_eq!(snap.last, 0);
    assert!(snap.commands.is_empty());
    assert!(snap.categories.is_empty());
    assert_eq!(snap.hours, vec![0; 24]);
    assert_eq!(snap.days, vec![0; 7]);
    assert_eq!(snap.trend, Trend::NotApplicable);
    assert_eq!(last_peak(&snap.hours), None);
    assert_eq!(last_peak(&snap.days), None);
    assert_eq!(shares(&snap.days), vec![0; 7]);
    let week = compute(&Vec::new(), Window::Week(3));
    assert_eq!(week.total, 0);
    assert_eq!(week.trend, Trend::NotApplicable);
}

#[test]
fn scenario_one_entry_per_hour() {
    let entries: Vec<HistoryEntry> = (0..24).map(|h| entry(MONDAY + 3600 * h, "ls")).collect();
    let snap = compute_at(&entries, Window::Lifetime, &wednesday_clock(), &stamps(&entries));
    assert_eq!(snap.hours, vec![1; 24]);
    assert_eq!(hour_levels(&snap.hours), vec![HourLevel::AtOrAbove; 24]);
    // Two thirds of 1 truncates to 0, so every hour is a peak.
    assert_eq!(peak_hours(&snap.hours), (0..24).collect::<Vec<usize>>());
    assert_eq!(last_peak(&snap.hours), Some((23, 1)));
    assert_eq!(snap.days, vec![24, 0, 0, 0, 0, 0, 0]);
    assert_eq!(last_peak(&snap.days), Some((0, 24)));
}

#[test]
fn week_boundaries() {
    let entries = vec![
        entry(MONDAY, "first second"),
        entry(MONDAY - 1, "sunday before"),
        entry(MONDAY + 604799, "last second"),
        entry(MONDAY + 604800, "next monday"),
        entry(0, "no time"),
    ];
    let snap = compute_at(&entries, Window::Week(0), &wednesday_clock(), &stamps(&entries));
    assert_eq!(snap.total, 2);
    assert_eq!(names(&snap.commands), vec![("first second", 1), ("last second", 1)]);
    let prev = compute_at(&entries, Window::Week(1), &clock_back(1), &stamps(&entries));
    assert_eq!(prev.total, 1);
    assert_eq!(names(&prev.commands), vec![("sunday before", 1)]);
}

#[test]
fn lifetime_counts() {
    let entries = vec![
        entry(MONDAY + 2 * 86400 + 5, "git status"),
        entry(MONDAY, "git push"),
        entry(MONDAY - 30 * 86400, "ls -l"),
        entry(0, "  "),
        entry(MONDAY + 2 * 86400 + 9, "git status"),
    ];
    let snap = compute_at(&entries, Window::Lifetime, &wednesday_clock(), &stamps(&entries));
    assert_eq!(snap.total, 5);
    assert_eq!(snap.timestamped, 4);
    assert_eq!(snap.today, 2);
    assert_eq!(snap.this_week, 3);
    assert_eq!(snap.this_month, 3);
    assert_eq!(snap.unique, 4);
    assert_eq!(snap.first, MONDAY - 30 * 86400);
    assert_eq!(snap.last, MONDAY + 2 * 86400 + 9);
    assert_eq!(snap.days_observed, 33);
    assert_eq!(
        names(&snap.commands),
        vec![("git status", 2), ("git push", 1), ("ls -l", 1), ("  ", 1)]
    );
    assert_eq!(names(&snap.categories), vec![("git", 3), ("ls", 1), ("other", 1)]);
    assert_eq!(percent(3, snap.total), 60);
    assert_eq!(snap.trend, Trend::NotApplicable);
}

#[test]
fn untimed_entries_span_one_day() {
    let entries = vec![entry(0, "a"), entry(0, "b")];
    let snap = compute_at(&entries, Window::Lifetime, &wednesday_clock(), &stamps(&entries));
    assert_eq!(snap.days_observed, 1);
    assert_eq!(snap.timestamped, 0);
    assert_eq!(snap.first, 0);
    assert_eq!(snap.hours, vec![0; 24]);
}

#[test]
fn no_calendar_means_no_week() {
    let entries = vec![entry(MONDAY, "a")];
    let clock = Clock { today_start: None, week: None, previous_week_start: None, month: None };
    let snap = compute_at(&entries, Window::Week(0), &clock, &stamps(&entries));
    assert_eq!(snap.total, 0);
    let all = compute_at(&entries, Window::Lifetime, &clock, &stamps(&entries));
    assert_eq!(all.total, 1);
    assert_eq!(all.today, 0);
    assert_eq!(all.this_week, 0);
    assert_eq!(all.this_month, 0);
}

#[test]
fn ranking_ties_follow_first_seen() {
    let a = vec!["b", "a", "b", "a", "c"].into_iter().map(String::from).collect();
    let b = vec!["a", "b", "b", "a", "c"].into_iter().map(String::from).collect();
    let c = vec!["b", "a", "a", "c", "b"].into_iter().map(String::from).collect();
    assert_eq!(names(&rank(&a)), vec![("b", 2), ("a", 2), ("c", 1)]);
    assert_eq!(names(&rank(&b)), vec![("a", 2), ("b", 2), ("c", 1)]);
    // Same counts and same first-seen order: same ranking.
    assert_eq!(rank(&a), rank(&c));
    assert_ne!(rank(&a), rank(&b));
    let d = vec!["x", "y", "y"].into_iter().map(String::from).collect();
    assert_eq!(names(&rank(&d)), vec![("y", 2), ("x", 1)]);
    assert!(rank(&Vec::new()).is_empty());
}

#[test]
fn lifetime_trend_is_steady_for_even_halves() {
    let entries: Vec<HistoryEntry> = (0..11).map(|i| entry(MONDAY + i, "x")).collect();
    let snap = compute_at(&entries, Window::Lifetime, &wednesday_clock(), &stamps(&entries));
    assert_eq!(snap.trend, Trend::Steady);
    let ten: Vec<HistoryEntry> = (0..10).map(|i| entry(MONDAY + i, "x")).collect();
    let snap = compute_at(&ten, Window::Lifetime, &wednesday_clock(), &stamps(&ten));
    assert_eq!(snap.trend, Trend::NotApplicable);
}

fn weeks(current: i64, previous: i64) -> Vec<HistoryEntry> {
    let mut v: Vec<HistoryEntry> = (0..previous).map(|i| entry(MONDAY - 604800 + i, "p")).collect();
    v.extend((0..current).map(|i| entry(MONDAY + i, "c")));
    v
}

#[test]
fn week_trend_against_previous_week() {
    let clock = wednesday_clock();
    for (cur, prev, expected) in [
        (11, 0, Trend::Increasing),
        (11, 20, Trend::Decreasing),
        (11, 10, Trend::Steady),
        (13, 10, Trend::Increasing),
        (10, 0, Trend::NotApplicable),
    ] {
        let e = weeks(cur, prev);
        let snap = compute_at(&e, Window::Week(0), &clock, &stamps(&e));
        assert_eq!(snap.trend, expected, "{} against {}", cur, prev);
        assert_eq!(snap.this_week as i64, cur);
    }
}

#[test]
fn bucket_metrics() {
    assert_eq!(hour_levels(&vec![0, 1, 3]), vec![HourLevel::Empty, HourLevel::Below, HourLevel::AtOrAbove]);
    assert_eq!(peak_hours(&vec![0, 2, 3, 1]), vec![2]);
    assert_eq!(peak_hours(&vec![0, 3, 2, 6]), vec![3]);
    assert_eq!(peak_hours(&vec![0, 0]), Vec::<usize>::new());
    assert_eq!(last_peak(&vec![1, 3, 3, 0]), Some((2, 3)));
    assert_eq!(shares(&vec![1, 1, 2]), vec![25, 25, 50]);
    assert_eq!(shares(&vec![1, 2]), vec![33, 66]);
    assert_eq!(percent(1, 3), 33);
    assert_eq!(weeks_observed(0), 1);
    assert_eq!(weeks_observed(7), 1);
    assert_eq!(weeks_observed(8), 2);
    assert_eq!(weeks_observed(33), 5);
    assert_eq!(percent(0, 0), 0);
}

#[test]
fn timestamp_text() {
    assert_eq!(format_timestamp(0), "Timestamp not available");
    assert_eq!(describe_timestamp(0, Some("x".to_string())), "Timestamp not available");
    assert_eq!(describe_timestamp(7, None), "Invalid timestamp");
    assert_eq!(describe_timestamp(7, Some("Jan 01 1970 at 12:00 am".to_string())), "Jan 01 1970 at 12:00 am");
    assert!(format_timestamp(1700000000).contains("2023"));
    assert_eq!(format_timestamp(i64::MAX), "Invalid timestamp");
}

#[test]
fn compute_with_system_calendar() {
    let entries = vec![entry(1700000000, "ls"), entry(0, "pwd"), entry(1700000001, "ls")];
    let snap = compute(&entries, Window::Lifetime);
    assert_eq!(snap.total, 3);
    assert_eq!(snap.timestamped, 2);
    assert_eq!(snap.unique, 2);
    assert_eq!(snap.hours.iter().sum::<usize>(), 2);
    assert_eq!(snap.days.iter().sum::<usize>(), 2);
    assert_eq!(snap.first, 1700000000);
    assert_eq!(snap.last, 1700000001);
}

#[test]
fn clock_readings() {
    assert_eq!(next_month(2023, 11), Some((2023, 12)));
    assert_eq!(next_month(2023, 12), Some((2024, 1)));
    assert_eq!(next_month(i32::MAX, 12), None);
    // Wednesday midnight, two days after Monday: noon of that Monday.
    assert_eq!(monday_noon(MONDAY + 2 * 86400, 2, 0), Some(MONDAY + 43200));
    assert_eq!(monday_noon(MONDAY + 2 * 86400, 2, 1), Some(MONDAY - 604800 + 43200));
    assert_eq!(monday_noon(MONDAY + 2 * 86400, 2, -1), Some(MONDAY + 604800 + 43200));
    assert_eq!(monday_noon(i64::MIN, 3, 0), None);
    let monday = LocalFields { year: 2023, month: 11, day: 20, hour: 12, weekday: 0 };
    let tuesday = LocalFields { year: 2023, month: 11, day: 21, hour: 12, weekday: 1 };
    assert_eq!(monday_date(Some(monday)), Some((2023, 11, 20)));
    assert_eq!(monday_date(Some(tuesday)), None);
    assert_eq!(monday_date(None), None);
    let c = clock_from(Some(5), (Some(1), Some(2), Some(3)), (Some(10), Some(20)));
    assert_eq!(c, Clock { today_start: Some(5), week: Some((2, 3)), previous_week_start: Some(1), month: Some((10, 19)) });
    let c = clock_from(None, (None, Some(2), None), (Some(10), None));
    assert_eq!(c, Clock { today_start: None, week: None, previous_week_start: None, month: None });
}

#[test]
fn stamps_for_timestamped_entries() {
    let entries = vec![entry(1700000000, "a"), entry(0, "b"), entry(-3, "c"), entry(1700003600, "d")];
    let s = local_stamps(&entries);
    assert_eq!(s.len(), 4);
    assert!(s[0].is_some() && s[3].is_some());
    assert!(s[1].is_none() && s[2].is_none());
    let a = s[0].unwrap();
    let d = s[3].unwrap();
    assert!(a.hour < 24 && a.weekday < 7 && a.month == 11);
    assert_eq!((a.hour + 1) % 24, d.hour);
}

#[test]
fn current_week_holds_now() {
    let now = std::time::SystemTime::now()
        .duration_since(std::time::UNIX_EPOCH)
        .unwrap()
        .as_secs() as i64;
    let entries = vec![entry(now, "now"), entry(now - 15 * 86400, "earlier")];
    let week = compute(&entries, Window::Week(0));
    assert_eq!(week.total, 1);
    assert_eq!(week.this_week, 1);
    assert_eq!(week.today, 1);
    let all = compute(&entries, Window::Lifetime);
    assert_eq!(all.total, 2);
    assert_eq!(all.this_week, 1);
}
