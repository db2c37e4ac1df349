use cli_wrapped::detail::{command_detail, intensity};
use cli_wrapped::history::HistoryEntry;
use cli_wrapped::layout::{box_top, shorten, title_layout};
use cli_wrapped::stats::{LocalStamp, Window};
use cli_wrapped::viewer::{
    browse_start, browse_step, list_window, next_window, BrowseKey, BrowseState, StatsKey,
};

fn entry(ts: i64, cmd: &str) -> HistoryEntry {
    HistoryEntry {
        timestamp: ts,
        command: cmd.to_string(),
        directory: None,
        duration: None,
        exit_code: None,
    }
}

fn stamp(hour: u32, month: u32, day: u32) -> Option<LocalStamp> {
    Some(LocalStamp { hour, weekday: 0, month, day })
}

#[test]
fn stats_navigation() {
    assert_eq!(next_window(Window::Lifetime, StatsKey::Back), Some(Window::Week(0)));
    assert_eq!(next_window(Window::Week(0), StatsKey::Back), Some(Window::Week(1)));
    assert_eq!(next_window(Window::Week(2), StatsKey::Forward), Some(Window::Week(1)));
    assert_eq!(next_window(Window::Week(0), StatsKey::Forward), Some(Window::Lifetime));
    assert_eq!(next_window(Window::Lifetime, StatsKey::Forward), Some(Window::Lifetime));
    assert_eq!(next_window(Window::Week(u32::MAX), StatsKey::Back), Some(Window::Week(u32::MAX)));
    assert_eq!(next_window(Window::Week(4), StatsKey::Other), Some(Window::Week(4)));
    assert_eq!(next_window(Window::Week(4), StatsKey::Quit), None);
}

#[test]
fn browser_starts_on_latest() {
    assert_eq!(browse_start(5), BrowseState { selected: 4, detail: Some(4) });
    assert_eq!(browse_start(0), BrowseState { selected: 0, detail: None });
}

#[test]
fn browser_detail_moves() {
    let s = BrowseState { selected: 4, detail: Some(4) };
    assert_eq!(browse_step(s, 5, BrowseKey::Up), Some(BrowseState { selected: 4, detail: Some(3) }));
    assert_eq!(browse_step(s, 5, BrowseKey::Down), Some(s));
    assert_eq!(browse_step(s, 5, BrowseKey::Close), Some(BrowseState { selected: 4, detail: None }));
    assert_eq!(browse_step(s, 5, BrowseKey::Quit), None);
    let top = BrowseState { selected: 4, detail: Some(0) };
    assert_eq!(browse_step(top, 5, BrowseKey::Up), Some(top));
    assert_eq!(browse_step(top, 5, BrowseKey::Down), Some(BrowseState { selected: 4, detail: Some(1) }));
}

#[test]
fn browser_list_moves() {
    let s = BrowseState { selected: 2, detail: None };
    assert_eq!(browse_step(s, 5, BrowseKey::Up), Some(BrowseState { selected: 1, detail: None }));
    assert_eq!(browse_step(s, 5, BrowseKey::Down), Some(BrowseState { selected: 3, detail: None }));
    assert_eq!(browse_step(s, 5, BrowseKey::Open), Some(BrowseState { selected: 2, detail: Some(2) }));
    assert_eq!(browse_step(s, 5, BrowseKey::Close), None);
    let last = BrowseState { selected: 4, detail: None };
    assert_eq!(browse_step(last, 5, BrowseKey::Down), Some(last));
    let empty = BrowseState { selected: 0, detail: None };
    assert_eq!(browse_step(empty, 0, BrowseKey::Open), Some(empty));
    assert_eq!(browse_step(empty, 0, BrowseKey::Up), Some(empty));
}

#[test]
fn browser_list_window() {
    assert_eq!(list_window(0, 3), (0, 3));
    assert_eq!(list_window(20, 30), (15, 25));
    assert_eq!(list_window(28, 30), (23, 30));
    assert_eq!(list_window(3, 100), (0, 10));
}

#[test]
fn detail_figures() {
    let entries = vec![
        entry(1000, "git status"),
        entry(100_000, "git push"),
        entry(200_000, "git status"),
        entry(0, "git status"),
        entry(250_000, "git log"),
        entry(260_000, "git diff"),
        entry(270_000, "git fetch"),
        entry(280_000, "ls"),
    ];
    let local = vec![
        stamp(9, 11, 3),
        stamp(10, 11, 4),
        stamp(9, 11, 5),
        None,
        stamp(1, 11, 5),
        stamp(1, 11, 5),
        stamp(1, 11, 5),
        stamp(2, 11, 6),
    ];
    let d = command_detail(&entries, &local, 2);
    assert_eq!(d.position, 3);
    assert_eq!(d.previous.as_deref(), Some("git push"));
    assert_eq!(d.next.as_deref(), Some("git status"));
    assert_eq!(d.total_runs, 3);
    // Only this run falls within the day before it.
    assert_eq!(d.recent_runs, 1);
    assert_eq!(d.similar, vec!["git push", "git log", "git diff"]);
    let mut hours = vec![0; 24];
    hours[9] = 2;
    assert_eq!(d.hours, hours);
    assert_eq!(d.days, vec![((11, 3), 1), ((11, 5), 1)]);
    let first = command_detail(&entries, &local, 0);
    assert_eq!(first.previous, None);
    let last = command_detail(&entries, &local, 7);
    assert_eq!(last.next, None);
    assert!(last.similar.is_empty());
}

#[test]
fn detail_keeps_latest_seven_days() {
    let entries: Vec<HistoryEntry> = (0..9).map(|i| entry(1000 + i, "make")).collect();
    let local: Vec<Option<LocalStamp>> = (0..9).map(|i| stamp(0, 1 + (i % 3) as u32 * 4, 2 + i as u32)).collect();
    let d = command_detail(&entries, &local, 0);
    assert_eq!(d.days.len(), 7);
    let keys: Vec<(u32, u32)> = d.days.iter().map(|(k, _)| *k).collect();
    let mut sorted = keys.clone();
    sorted.sort();
    assert_eq!(keys, sorted);
    assert!(!keys.contains(&(1, 2)));
    assert!(!keys.contains(&(1, 5)));
}

#[test]
fn bar_intensity() {
    assert_eq!(intensity(1, 2), 3);
    assert_eq!(intensity(2, 2), 5);
    assert_eq!(intensity(0, 3), 0);
    assert_eq!(intensity(1, 10), 1);
}

#[test]
fn box_title_placement() {
    assert_eq!(title_layout(20, 4), Some((7, 7)));
    assert_eq!(title_layout(21, 4), Some((7, 8)));
    assert_eq!(title_layout(6, 4), None);
    let b = box_top(20, Some("Hi"));
    assert_eq!((b.width, b.left, b.right), (20, 7, 7));
    assert_eq!(b.title.as_deref(), Some(" Hi "));
    let wide = box_top(20, Some("日本"));
    assert_eq!((wide.left, wide.right), (6, 6));
    let long = box_top(10, Some("Long title"));
    assert_eq!((long.left, long.right), (8, 0));
    assert_eq!(long.title, None);
    let small = box_top(2, None);
    assert_eq!((small.width, small.left, small.right), (4, 2, 0));
}

#[test]
fn shortened_text() {
    assert_eq!(shorten("abcdef", 4, 1), "a...");
    assert_eq!(shorten("abc", 4, 1), "abc");
    assert_eq!(shorten("ééééé", 4, 2), "éé...");
}

