use cli_wrapped::history::{
    is_valid_directory, parse_cli_stats_line, parse_history_line, parse_history_lines,
    parse_log_lines, select_entries, HistoryEntry, SourceError,
};

fn lines(v: &[&str]) -> Vec<String> {
    v.iter().map(|s| s.to_string()).collect()
}

fn commands(v: &[HistoryEntry]) -> Vec<&str> {
    v.iter().map(|e| e.command.as_str()).collect()
}

#[test]
fn scenario_mixed_lines() {
    let input = lines(&[
        "1700000000|ls -la|/home/u",
        "bad line with no structure @@",
        ": 1700003600:0;cd /tmp:/tmp",
    ]);
    let entries = parse_log_lines(&input);
    let timed: Vec<&HistoryEntry> = entries.iter().filter(|e| e.timestamp > 0).collect();
    assert_eq!(timed.len(), 2);
    assert_eq!(timed[0].command, "ls -la");
    assert_eq!(timed[0].timestamp, 1700000000);
    assert_eq!(timed[0].directory.as_deref(), Some("/home/u"));
    assert_eq!(timed[1].command, "cd /tmp");
    assert_eq!(timed[1].timestamp, 1700003600);
    assert_eq!(timed[1].directory.as_deref(), Some("/tmp"));
    // The unstructured line is read as a plain command without a time.
    assert_eq!(entries.len(), 3);
    assert_eq!(entries[1].timestamp, 0);
    assert_eq!(entries[1].directory, None);
    assert_eq!(entries[1].command, "bad line with no structure @@");
}

#[test]
fn pipe_line_one_entry() {
    let v = parse_cli_stats_line("1700000000|git status|/Users/x/proj");
    assert_eq!(v.len(), 1);
    assert_eq!(v[0].timestamp, 1700000000);
    assert_eq!(v[0].command, "git status");
    assert_eq!(v[0].directory.as_deref(), Some("/Users/x/proj"));
    assert_eq!(v[0].duration, None);
    assert_eq!(v[0].exit_code, None);
}

#[test]
fn pipe_line_compound_splits() {
    let v = parse_cli_stats_line("1700000000| git add . && git commit &&  |~/proj ");
    assert_eq!(commands(&v), vec!["git add .", "git commit"]);
    assert!(v.iter().all(|e| e.timestamp == 1700000000));
    assert!(v.iter().all(|e| e.directory.as_deref() == Some("~/proj")));
}

#[test]
fn pipe_line_invalid_directory_dropped() {
    let v = parse_cli_stats_line("-5|open https://github.com/x|https://github.com/x");
    assert_eq!(v.len(), 1);
    assert_eq!(v[0].timestamp, -5);
    assert_eq!(v[0].directory, None);
}

#[test]
fn pipe_line_bad_timestamp_gives_nothing() {
    assert!(parse_cli_stats_line("abc|ls|/tmp").is_empty());
    assert!(parse_cli_stats_line(" 12|ls|/tmp").is_empty());
    assert!(parse_cli_stats_line("99999999999999999999|ls|/tmp").is_empty());
}

#[test]
fn colon_line_keeps_colons_in_command() {
    let v = parse_cli_stats_line("1700000000:echo a:b:/home/u");
    assert_eq!(v.len(), 1);
    assert_eq!(v[0].command, "echo a:b");
    assert_eq!(v[0].directory.as_deref(), Some("/home/u"));
}

#[test]
fn colon_line_invalid_directory() {
    let v = parse_cli_stats_line("42:ls && pwd:notadir");
    assert_eq!(commands(&v), vec!["ls", "pwd"]);
    assert!(v.iter().all(|e| e.timestamp == 42 && e.directory.is_none()));
}

#[test]
fn colon_line_without_digits_is_plain() {
    let v = parse_cli_stats_line("x1:ls:/tmp");
    assert_eq!(v.len(), 1);
    assert_eq!(v[0].timestamp, 0);
    assert_eq!(v[0].command, "x1:ls:/tmp");
}

#[test]
fn colon_line_empty_timestamp_gives_nothing() {
    assert!(parse_cli_stats_line(":ls:/tmp").is_empty());
}

#[test]
fn extended_line_with_directory() {
    let v = parse_cli_stats_line(": 1700003600:5;make && make test:/src/app");
    assert_eq!(commands(&v), vec!["make", "make test"]);
    assert!(v.iter().all(|e| e.timestamp == 1700003600));
    assert!(v.iter().all(|e| e.directory.as_deref() == Some("/src/app")));
}

#[test]
fn extended_line_without_semicolon_gives_nothing() {
    assert!(parse_cli_stats_line(": 1700003600:0").is_empty());
    assert!(parse_history_line(": 1700003600:0").is_empty());
}

#[test]
fn extended_line_bad_timestamp_gives_nothing() {
    assert!(parse_cli_stats_line(": abc:0;ls").is_empty());
    assert!(parse_history_line(": abc:0;ls").is_empty());
}

#[test]
fn plain_line_splits_and_trims() {
    let v = parse_cli_stats_line("   ls   &&  pwd  ");
    assert_eq!(commands(&v), vec!["ls", "pwd"]);
    assert!(v.iter().all(|e| e.timestamp == 0 && e.directory.is_none()));
    assert!(parse_cli_stats_line("   ").is_empty());
    assert!(parse_cli_stats_line("&& &&").is_empty());
}

#[test]
fn shell_line_counts_compound_pieces() {
    let v = parse_history_line(": 1700000000:0;make && make test &&  && echo done");
    assert_eq!(commands(&v), vec!["make", "make test", "echo done"]);
    assert!(v.iter().all(|e| e.timestamp == 1700000000 && e.directory.is_none()));
}

#[test]
fn shell_line_keeps_colons_and_semicolons() {
    let v = parse_history_line(": 1700000000:0;git commit -m 'fix: a; b'");
    assert_eq!(commands(&v), vec!["git commit -m 'fix: a; b'"]);
}

#[test]
fn shell_line_plain() {
    let v = parse_history_line("1700000000|ls|/tmp");
    assert_eq!(v.len(), 1);
    assert_eq!(v[0].timestamp, 0);
    assert_eq!(v[0].command, "1700000000|ls|/tmp");
}

#[test]
fn directory_rules() {
    assert!(is_valid_directory("/Users/x/proj"));
    assert!(is_valid_directory("~/proj"));
    assert!(!is_valid_directory(""));
    assert!(!is_valid_directory("proj/x"));
    assert!(!is_valid_directory(" /x"));
    assert!(!is_valid_directory("/x://y"));
    assert!(!is_valid_directory("~/github.com/me"));
}

#[test]
fn history_lines_in_order() {
    let v = parse_history_lines(&lines(&[": 10:0;a", "b && c", ": 20:0;d"]));
    assert_eq!(commands(&v), vec!["a", "b", "c", "d"]);
    assert_eq!(v.iter().map(|e| e.timestamp).collect::<Vec<_>>(), vec![10, 0, 0, 20]);
}

#[test]
fn source_prefers_primary() {
    let primary = lines(&["5|ls|/tmp"]);
    let fallback = lines(&[": 9:0;pwd"]);
    let v = select_entries(Some(&primary), Some(&fallback)).unwrap();
    assert_eq!(commands(&v), vec!["ls"]);
}

#[test]
fn source_falls_back_when_primary_empty() {
    let primary = lines(&["", "abc|x|y"]);
    let fallback = lines(&[": 9:0;pwd"]);
    let v = select_entries(Some(&primary), Some(&fallback)).unwrap();
    assert_eq!(commands(&v), vec!["pwd"]);
    let v = select_entries(None, Some(&fallback)).unwrap();
    assert_eq!(v[0].timestamp, 9);
}

#[test]
fn source_unavailable() {
    let primary = lines(&[""]);
    assert_eq!(select_entries(None, None).unwrap_err(), SourceError::SourceUnavailable);
    assert!(select_entries(Some(&primary), None).unwrap().is_empty());
}
