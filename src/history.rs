//! History entries and the parser for the log line formats.
//!
//! A line is read in one of four formats, tried in a fixed order:
//! pipe-delimited `ts|command|directory`, colon-delimited
//! `ts:command:directory`, extended `: ts:duration;command[:directory]`,
//! and plain text. A line whose shape matches a format is read by that
//! format alone: if its timestamp does not parse, the line gives no entries.
//! Every command text is split on `&&` into one entry per non-empty piece.
use vstd::prelude::*;

use crate::text::{
    all_digits, all_digits_range, chars_of, contains, contains_at_any, is_space, lemma_int_text_chars,
    lemma_split_at_char, lemma_split_nonempty, lemma_split_skip, parse_i64, parse_i64_range,
    range_texts, ranges_within, split, split_from, split_ranges, text_of, trim, trim_end,
    trim_range, trim_start,
};

verus! {

/// One executed command.
#[derive(Debug, Clone)]
pub struct HistoryEntry {
    /// Seconds since the epoch; 0 when the log gives no time.
    pub timestamp: i64,
    pub command: String,
    pub directory: Option<String>,
    pub duration: Option<i64>,
    pub exit_code: Option<i32>,
}

/// An entry as plain values: timestamp, command, directory, duration, exit code.
pub type EntryView = (i64, Seq<char>, Option<Seq<char>>, Option<i64>, Option<i32>);

pub open spec fn opt_text(o: Option<String>) -> Option<Seq<char>> {
    match o {
        Some(s) => Some(s@),
        None => None,
    }
}

impl View for HistoryEntry {
    type V = EntryView;

    open spec fn view(&self) -> EntryView {
        (self.timestamp, self.command@, opt_text(self.directory), self.duration, self.exit_code)
    }
}

pub open spec fn entries_view(s: Seq<HistoryEntry>) -> Seq<EntryView> {
    s.map_values(|e: HistoryEntry| e@)
}

/// The trimmed, non-empty texts among `parts`, in order.
pub open spec fn commands_in(parts: Seq<Seq<char>>) -> Seq<Seq<char>>
    decreases parts.len(),
{
    if parts.len() == 0 {
        seq![]
    } else {
        let rest = commands_in(parts.drop_last());
        let t = trim(parts.last());
        if t.len() > 0 {
            rest.push(t)
        } else {
            rest
        }
    }
}

/// The commands that a compound command text `s` holds: its pieces between
/// `&&`, trimmed, the empty ones left out.
pub open spec fn compound_commands(s: Seq<char>) -> Seq<Seq<char>> {
    commands_in(split(s, "&&"@))
}

/// One entry per command of `cmds`, all with timestamp `ts` and directory `dir`.
pub open spec fn entries_for(cmds: Seq<Seq<char>>, ts: i64, dir: Option<Seq<char>>) -> Seq<EntryView> {
    cmds.map_values(|c: Seq<char>| (ts, c, dir, None::<i64>, None::<i32>))
}

/// Whether `s` has the shape of a directory: it starts with `/` or `~`
/// and holds neither `://` nor `github.com`, which mark a URL.
pub open spec fn valid_directory(s: Seq<char>) -> bool {
    &&& s.len() > 0
    &&& (s[0] == '/' || s[0] == '~')
    &&& !contains(s, "://"@)
    &&& !contains(s, "github.com"@)
}

/// The directory that the candidate text `s` gives, once trimmed.
pub open spec fn directory_of(s: Seq<char>) -> Option<Seq<char>> {
    if valid_directory(trim(s)) {
        Some(trim(s))
    } else {
        None
    }
}

/// Whether `l` starts with `": "`, the mark of the extended format.
pub open spec fn extended_prefixed(l: Seq<char>) -> bool {
    l.len() >= 2 && l[0] == ':' && l[1] == ' '
}

/// A pipe-delimited line: exactly three `|`-separated fields.
pub open spec fn pipe_shaped(l: Seq<char>) -> bool {
    split(l, "|"@).len() == 3
}

/// Entries of a pipe-delimited line `ts|command|directory`.
pub open spec fn pipe_entries(l: Seq<char>) -> Seq<EntryView> {
    let f = split(l, "|"@);
    match parse_i64(f[0]) {
        Some(ts) => entries_for(compound_commands(f[1]), ts, directory_of(f[2])),
        None => seq![],
    }
}

/// A colon-delimited line: not extended, at least two `:`, and only
/// digits before the first.
pub open spec fn colon_shaped(l: Seq<char>) -> bool {
    let p = split(l, ":"@);
    !extended_prefixed(l) && p.len() >= 3 && all_digits(p[0])
}

/// Entries of a colon-delimited line: the timestamp before the first `:`,
/// the directory after the last, the command in between (colons kept).
pub open spec fn colon_entries(l: Seq<char>) -> Seq<EntryView> {
    let p = split(l, ":"@);
    let cmd = l.subrange(p[0].len() + 1int, l.len() - p.last().len() - 1int);
    match parse_i64(p[0]) {
        Some(ts) => entries_for(compound_commands(trim(cmd)), ts, directory_of(p.last())),
        None => seq![],
    }
}

/// Entries of an extended line `: ts:duration;command[:directory]`, where
/// the text after the first `;` holds the command up to its first `:` and
/// the directory after it.
pub open spec fn extended_entries(l: Seq<char>) -> Seq<EntryView> {
    let rest = l.subrange(2, l.len() as int);
    let halves = split(rest, ";"@);
    let head = halves[0];
    let body = rest.subrange(head.len() + 1int, rest.len() as int);
    let cd = split(body, ":"@);
    let dir = if cd.len() > 1 {
        directory_of(body.subrange(cd[0].len() + 1int, body.len() as int))
    } else {
        None
    };
    if halves.len() < 2 {
        seq![]
    } else {
        match parse_i64(split(head, ":"@)[0]) {
            Some(ts) => entries_for(compound_commands(cd[0]), ts, dir),
            None => seq![],
        }
    }
}

/// Entries of a plain line: its commands, with no timestamp (0) and no directory.
pub open spec fn plain_entries(l: Seq<char>) -> Seq<EntryView> {
    entries_for(compound_commands(trim(l)), 0, None)
}

/// The entries of one line of the primary log.
pub open spec fn log_line_entries(l: Seq<char>) -> Seq<EntryView> {
    if pipe_shaped(l) {
        pipe_entries(l)
    } else if colon_shaped(l) {
        colon_entries(l)
    } else if extended_prefixed(l) {
        extended_entries(l)
    } else {
        plain_entries(l)
    }
}

/// Entries of a shell history line `: ts:duration;command`: the whole text
/// after the first `;` is the command.
pub open spec fn shell_extended_entries(l: Seq<char>) -> Seq<EntryView> {
    let rest = l.subrange(2, l.len() as int);
    let halves = split(rest, ";"@);
    let head = halves[0];
    let cmd = rest.subrange(head.len() + 1int, rest.len() as int);
    if halves.len() < 2 {
        seq![]
    } else {
        match parse_i64(split(trim(head), ":"@)[0]) {
            Some(ts) => entries_for(compound_commands(cmd), ts, None),
            None => seq![],
        }
    }
}

/// The entries of one line of the shell's own history file.
pub open spec fn shell_line_entries(l: Seq<char>) -> Seq<EntryView> {
    if extended_prefixed(l) {
        shell_extended_entries(l)
    } else {
        plain_entries(l)
    }
}

fn copy_dir(d: &Option<String>) -> (r: Option<String>)
    ensures
        opt_text(r) == opt_text(*d),
{
    match d {
        Some(s) => Some(s.clone()),
        None => None,
    }
}

/// Appends to `out` one entry per command of the compound text `cs[lo..hi]`.
fn push_commands(
    out: &mut Vec<HistoryEntry>,
    line: &str,
    cs: &Vec<char>,
    lo: usize,
    hi: usize,
    ts: i64,
    dir: &Option<String>,
)
    requires
        cs@ == line@,
        lo <= hi <= cs.len(),
    ensures
        entries_view(final(out)@) == entries_view(old(out)@) + entries_for(
            compound_commands(cs@.subrange(lo as int, hi as int)),
            ts,
            opt_text(*dir),
        ),
{
    let ghost start = entries_view(out@);
    let sep = chars_of("&&");
    proof {
        reveal_strlit("&&");
    }
    let ranges = split_ranges(cs, lo, hi, &sep);
    let ghost parts = split(cs@.subrange(lo as int, hi as int), "&&"@);
    let mut k: usize = 0;
    while k < ranges.len()
        invariant
            cs@ == line@,
            lo <= hi <= cs.len(),
            ranges_within(ranges@, lo as int, hi as int),
            range_texts(cs@, ranges@) == parts,
            k <= ranges.len(),
            entries_view(out@) == start + entries_for(
                commands_in(parts.take(k as int)),
                ts,
                opt_text(*dir),
            ),
        decreases ranges.len() - k,
    {
        let (a, b) = ranges[k];
        let (x, y) = trim_range(cs, a, b);
        let ghost prev = commands_in(parts.take(k as int));
        assert(parts.take(k + 1).drop_last() =~= parts.take(k as int));
        assert(parts.take(k + 1).last() == parts[k as int]);
        assert(parts[k as int] == cs@.subrange(a as int, b as int));
        let ghost before = entries_view(out@);
        if x < y {
            let e = HistoryEntry {
                timestamp: ts,
                command: text_of(line, x, y),
                directory: copy_dir(dir),
                duration: None,
                exit_code: None,
            };
            out.push(e);
            assert(entries_view(out@) =~= before.push(e@));
            assert(commands_in(parts.take(k + 1)) == prev.push(cs@.subrange(x as int, y as int)));
            assert(entries_for(prev.push(cs@.subrange(x as int, y as int)), ts, opt_text(*dir))
                =~= entries_for(prev, ts, opt_text(*dir)).push(e@));
        } else {
            assert(commands_in(parts.take(k + 1)) == prev);
        }
        k = k + 1;
    }
    assert(parts.take(ranges.len() as int) =~= parts);
}

/// Whether `cs[lo..hi]` has the shape of a directory.
fn directory_shaped(cs: &Vec<char>, lo: usize, hi: usize) -> (r: bool)
    requires
        lo <= hi <= cs.len(),
    ensures
        r == valid_directory(cs@.subrange(lo as int, hi as int)),
{
    if lo == hi {
        return false;
    }
    let c = cs[lo];
    assert(cs@.subrange(lo as int, hi as int)[0] == c);
    if c != '/' && c != '~' {
        return false;
    }
    let url = chars_of("://");
    let site = chars_of("github.com");
    !contains_at_any(cs, lo, hi, &url) && !contains_at_any(cs, lo, hi, &site)
}

/// Whether `path` has the shape of a directory: non-empty, starting with
/// `/` or `~`, and holding neither `://` nor `github.com`.
pub fn is_valid_directory(path: &str) -> (r: bool)
    ensures
        r == valid_directory(path@),
{
    let cs = chars_of(path);
    assert(cs@.subrange(0, cs.len() as int) =~= path@);
    directory_shaped(&cs, 0, cs.len())
}

/// The directory that the candidate text `cs[lo..hi]` gives.
fn directory_in(line: &str, cs: &Vec<char>, lo: usize, hi: usize) -> (r: Option<String>)
    requires
        cs@ == line@,
        lo <= hi <= cs.len(),
    ensures
        opt_text(r) == directory_of(cs@.subrange(lo as int, hi as int)),
{
    let (a, b) = trim_range(cs, lo, hi);
    if directory_shaped(cs, a, b) {
        Some(text_of(line, a, b))
    } else {
        None
    }
}

/// Entries of a pipe-delimited line; `None` when the line has not that shape.
fn pipe_line(line: &str, cs: &Vec<char>) -> (r: Option<Vec<HistoryEntry>>)
    requires
        cs@ == line@,
    ensures
        r is None <==> !pipe_shaped(line@),
        r matches Some(v) ==> entries_view(v@) == pipe_entries(line@),
{
    let n = cs.len();
    assert(cs@.subrange(0, n as int) =~= line@);
    let bar = chars_of("|");
    proof {
        reveal_strlit("|");
    }
    let f = split_ranges(cs, 0, n, &bar);
    if f.len() != 3 {
        return None;
    }
    let ghost fs = split(line@, "|"@);
    assert(fs[0] == cs@.subrange(f[0].0 as int, f[0].1 as int));
    assert(fs[1] == cs@.subrange(f[1].0 as int, f[1].1 as int));
    assert(fs[2] == cs@.subrange(f[2].0 as int, f[2].1 as int));
    let mut out: Vec<HistoryEntry> = Vec::new();
    match parse_i64_range(cs, f[0].0, f[0].1) {
        Some(ts) => {
            let dir = directory_in(line, cs, f[2].0, f[2].1);
            push_commands(&mut out, line, cs, f[1].0, f[1].1, ts, &dir);
        }
        None => {
            assert(entries_view(out@) =~= Seq::<EntryView>::empty());
        }
    }
    Some(out)
}

/// Entries of a colon-delimited line; `None` when the line has not that shape.
fn colon_line(line: &str, cs: &Vec<char>) -> (r: Option<Vec<HistoryEntry>>)
    requires
        cs@ == line@,
    ensures
        r is None <==> !colon_shaped(line@),
        r matches Some(v) ==> entries_view(v@) == colon_entries(line@),
{
    let n = cs.len();
    assert(cs@.subrange(0, n as int) =~= line@);
    let extended = n >= 2 && cs[0] == ':' && cs[1] == ' ';
    if extended {
        return None;
    }
    let colon = chars_of(":");
    proof {
        reveal_strlit(":");
    }
    let p = split_ranges(cs, 0, n, &colon);
    let ghost ps = split(line@, ":"@);
    assert(ps[0] == cs@.subrange(p[0].0 as int, p[0].1 as int));
    if p.len() < 3 || !all_digits_range(cs, p[0].0, p[0].1) {
        return None;
    }
    let last = p[p.len() - 1];
    assert(ps.last() == cs@.subrange(last.0 as int, last.1 as int));
    assert(p[0].1 + 1 == p[1].0);
    assert(p[1].1 + 1 <= last.0);
    let a = p[0].1 + 1;
    let b = last.0 - 1;
    assert(line@.subrange(ps[0].len() + 1int, line@.len() - ps.last().len() - 1int)
        == cs@.subrange(a as int, b as int));
    let mut out: Vec<HistoryEntry> = Vec::new();
    match parse_i64_range(cs, p[0].0, p[0].1) {
        Some(ts) => {
            let dir = directory_in(line, cs, last.0, last.1);
            let (x, y) = trim_range(cs, a, b);
            push_commands(&mut out, line, cs, x, y, ts, &dir);
        }
        None => {
            assert(entries_view(out@) =~= Seq::<EntryView>::empty());
        }
    }
    Some(out)
}

/// Entries of a plain line.
fn plain_line(line: &str, cs: &Vec<char>) -> (r: Vec<HistoryEntry>)
    requires
        cs@ == line@,
    ensures
        entries_view(r@) == plain_entries(line@),
{
    let n = cs.len();
    assert(cs@.subrange(0, n as int) =~= line@);
    let (x, y) = trim_range(cs, 0, n);
    let mut out: Vec<HistoryEntry> = Vec::new();
    push_commands(&mut out, line, cs, x, y, 0, &None);
    out
}

/// Entries of an extended line of the primary log.
fn extended_line(line: &str, cs: &Vec<char>) -> (r: Vec<HistoryEntry>)
    requires
        cs@ == line@,
        extended_prefixed(line@),
    ensures
        entries_view(r@) == extended_entries(line@),
{
    let n = cs.len();
    let ghost l = line@;
    let ghost rest = l.subrange(2, n as int);
    assert(cs@.subrange(2, n as int) == rest);
    let semi = chars_of(";");
    let colon = chars_of(":");
    proof {
        reveal_strlit(";");
        reveal_strlit(":");
    }
    let mut out: Vec<HistoryEntry> = Vec::new();
    let h = split_ranges(cs, 2, n, &semi);
    let ghost halves = split(rest, ";"@);
    assert(halves[0] == cs@.subrange(h[0].0 as int, h[0].1 as int));
    if h.len() < 2 {
        assert(entries_view(out@) =~= Seq::<EntryView>::empty());
        return out;
    }
    let ghost head = halves[0];
    let hs = h[0].0;
    let he = h[0].1;
    assert(h[0].1 + 1 == h[1].0);
    let bs = he + 1;
    let ghost body = rest.subrange(head.len() + 1int, rest.len() as int);
    assert(body =~= cs@.subrange(bs as int, n as int));
    let t = split_ranges(cs, hs, he, &colon);
    assert(split(head, ":"@)[0] == cs@.subrange(t[0].0 as int, t[0].1 as int));
    match parse_i64_range(cs, t[0].0, t[0].1) {
        Some(ts) => {
            let cd = split_ranges(cs, bs, n, &colon);
            let ghost cds = split(body, ":"@);
            assert(cds[0] == cs@.subrange(cd[0].0 as int, cd[0].1 as int));
            let dir = if cd.len() > 1 {
                assert(cd[0].1 + 1 == cd[1].0);
                assert(body.subrange(cds[0].len() + 1int, body.len() as int) =~= cs@.subrange(
                    cd[0].1 + 1,
                    n as int,
                ));
                directory_in(line, cs, cd[0].1 + 1, n)
            } else {
                None
            };
            push_commands(&mut out, line, cs, cd[0].0, cd[0].1, ts, &dir);
        }
        None => {
            assert(entries_view(out@) =~= Seq::<EntryView>::empty());
        }
    }
    out
}

/// Entries of an extended line of the shell's own history file.
fn shell_extended_line(line: &str, cs: &Vec<char>) -> (r: Vec<HistoryEntry>)
    requires
        cs@ == line@,
        extended_prefixed(line@),
    ensures
        entries_view(r@) == shell_extended_entries(line@),
{
    let n = cs.len();
    let ghost l = line@;
    let ghost rest = l.subrange(2, n as int);
    assert(cs@.subrange(2, n as int) == rest);
    let semi = chars_of(";");
    let colon = chars_of(":");
    proof {
        reveal_strlit(";");
        reveal_strlit(":");
    }
    let mut out: Vec<HistoryEntry> = Vec::new();
    let h = split_ranges(cs, 2, n, &semi);
    let ghost halves = split(rest, ";"@);
    assert(halves[0] == cs@.subrange(h[0].0 as int, h[0].1 as int));
    if h.len() < 2 {
        assert(entries_view(out@) =~= Seq::<EntryView>::empty());
        return out;
    }
    let ghost head = halves[0];
    let he = h[0].1;
    assert(h[0].1 + 1 == h[1].0);
    let bs = he + 1;
    assert(rest.subrange(head.len() + 1int, rest.len() as int) =~= cs@.subrange(bs as int, n as int));
    let (hx, hy) = trim_range(cs, h[0].0, he);
    let t = split_ranges(cs, hx, hy, &colon);
    assert(split(trim(head), ":"@)[0] == cs@.subrange(t[0].0 as int, t[0].1 as int));
    match parse_i64_range(cs, t[0].0, t[0].1) {
        Some(ts) => {
            push_commands(&mut out, line, cs, bs, n, ts, &None);
        }
        None => {
            assert(entries_view(out@) =~= Seq::<EntryView>::empty());
        }
    }
    out
}

/// The entries of one line of the primary log. The formats are tried in
/// order: pipe-delimited, colon-delimited, extended, plain; the first whose
/// shape the line has reads it, and a timestamp that does not parse there
/// leaves the line without entries.
pub fn parse_cli_stats_line(line: &str) -> (r: Vec<HistoryEntry>)
    ensures
        entries_view(r@) == log_line_entries(line@),
{
    let cs = chars_of(line);
    if let Some(v) = pipe_line(line, &cs) {
        return v;
    }
    if let Some(v) = colon_line(line, &cs) {
        return v;
    }
    if cs.len() >= 2 && cs[0] == ':' && cs[1] == ' ' {
        extended_line(line, &cs)
    } else {
        plain_line(line, &cs)
    }
}

/// The entries of one line of the shell's own history file: extended
/// lines give their timestamp, other lines are plain commands.
pub fn parse_history_line(line: &str) -> (r: Vec<HistoryEntry>)
    ensures
        entries_view(r@) == shell_line_entries(line@),
{
    let cs = chars_of(line);
    if cs.len() >= 2 && cs[0] == ':' && cs[1] == ' ' {
        shell_extended_line(line, &cs)
    } else {
        plain_line(line, &cs)
    }
}

/// Entries of a sequence of lines, each read by `per_line`, in line order.
pub open spec fn lines_entries(
    lines: Seq<Seq<char>>,
    per_line: spec_fn(Seq<char>) -> Seq<EntryView>,
) -> Seq<EntryView>
    decreases lines.len(),
{
    if lines.len() == 0 {
        seq![]
    } else {
        lines_entries(lines.drop_last(), per_line) + per_line(lines.last())
    }
}

pub open spec fn texts(lines: Seq<String>) -> Seq<Seq<char>> {
    lines.map_values(|s: String| s@)
}

/// The entries of the lines of the primary log, in file order.
pub fn parse_log_lines(lines: &Vec<String>) -> (r: Vec<HistoryEntry>)
    ensures
        entries_view(r@) == lines_entries(texts(lines@), |l: Seq<char>| log_line_entries(l)),
{
    let ghost f = |l: Seq<char>| log_line_entries(l);
    let mut out: Vec<HistoryEntry> = Vec::new();
    let mut k: usize = 0;
    while k < lines.len()
        invariant
            k <= lines.len(),
            f == (|l: Seq<char>| log_line_entries(l)),
            entries_view(out@) == lines_entries(texts(lines@).take(k as int), f),
        decreases lines.len() - k,
    {
        let mut v = parse_cli_stats_line(lines[k].as_str());
        let ghost before = entries_view(out@);
        let ghost added = entries_view(v@);
        out.append(&mut v);
        assert(entries_view(out@) =~= before + added);
        assert(texts(lines@).take(k + 1).drop_last() =~= texts(lines@).take(k as int));
        k = k + 1;
    }
    assert(texts(lines@).take(k as int) =~= texts(lines@));
    out
}

/// The entries of the lines of the shell's own history file, in file order.
pub fn parse_history_lines(lines: &Vec<String>) -> (r: Vec<HistoryEntry>)
    ensures
        entries_view(r@) == lines_entries(texts(lines@), |l: Seq<char>| shell_line_entries(l)),
{
    let ghost f = |l: Seq<char>| shell_line_entries(l);
    let mut out: Vec<HistoryEntry> = Vec::new();
    let mut k: usize = 0;
    while k < lines.len()
        invariant
            k <= lines.len(),
            f == (|l: Seq<char>| shell_line_entries(l)),
            entries_view(out@) == lines_entries(texts(lines@).take(k as int), f),
        decreases lines.len() - k,
    {
        let mut v = parse_history_line(lines[k].as_str());
        let ghost before = entries_view(out@);
        let ghost added = entries_view(v@);
        out.append(&mut v);
        assert(entries_view(out@) =~= before + added);
        assert(texts(lines@).take(k + 1).drop_last() =~= texts(lines@).take(k as int));
        k = k + 1;
    }
    assert(texts(lines@).take(k as int) =~= texts(lines@));
    out
}

/// Why no history could be read.
#[derive(Debug, Clone, Copy, PartialEq, Eq)]
pub enum SourceError {
    /// Neither the primary log nor the shell's history file could be read.
    SourceUnavailable,
}

/// The entries to analyse, from the lines of the primary log and of the
/// shell's history file (`None` for a file that could not be read). The
/// primary log is used when it gives at least one entry; otherwise the
/// shell's history file is read. Only when neither file could be read is
/// the history unavailable.
pub fn select_entries(primary: Option<&Vec<String>>, fallback: Option<&Vec<String>>) -> (r: Result<
    Vec<HistoryEntry>,
    SourceError,
>)
    ensures
        ({
            let from_primary = match primary {
                Some(p) => lines_entries(texts(p@), |l: Seq<char>| log_line_entries(l)),
                None => seq![],
            };
            if from_primary.len() > 0 {
                r matches Ok(v) && entries_view(v@) == from_primary
            } else {
                match fallback {
                    Some(f) => r matches Ok(v) && entries_view(v@) == lines_entries(
                        texts(f@),
                        |l: Seq<char>| shell_line_entries(l),
                    ),
                    None => if primary is Some {
                        r matches Ok(v) && v.len() == 0
                    } else {
                        r == Err::<Vec<HistoryEntry>, SourceError>(SourceError::SourceUnavailable)
                    },
                }
            }
        }),
{
    let mut read = false;
    if let Some(p) = primary {
        let v = parse_log_lines(p);
        if v.len() > 0 {
            return Ok(v);
        }
        read = true;
    }
    match fallback {
        Some(f) => Ok(parse_history_lines(f)),
        None => if read {
            Ok(Vec::new())
        } else {
            Err(SourceError::SourceUnavailable)
        },
    }
}

/// A text without `&&` is one command: itself, trimmed, unless blank.
pub proof fn single_command(cmd: Seq<char>)
    requires
        !contains(cmd, "&&"@),
    ensures
        compound_commands(cmd) == if trim(cmd).len() > 0 {
            seq![trim(cmd)]
        } else {
            Seq::<Seq<char>>::empty()
        },
{
    reveal_strlit("&&");
    let sep = "&&"@;
    assert forall|k: int| 0 <= k < cmd.len() && k + sep.len() <= cmd.len() implies #[trigger] cmd.subrange(k, k + sep.len()) != sep by {
        if cmd.subrange(k, k + sep.len()) == sep {
            assert(contains(cmd, sep));
        }
    }
    assert(sep =~= seq!['&', '&']);
    lemma_split_skip(cmd, sep, 0, 0, cmd.len() as int);
    assert(split_from(cmd, sep, 0, cmd.len() as int) == seq![cmd.subrange(0, cmd.len() as int)]);
    assert(cmd.subrange(0, cmd.len() as int) =~= cmd);
    assert(split(cmd, sep) == seq![cmd]);
    assert(seq![cmd].drop_last() =~= Seq::<Seq<char>>::empty());
    assert(seq![cmd].last() == cmd);
    assert(commands_in(Seq::<Seq<char>>::empty()) == Seq::<Seq<char>>::empty());
    assert(Seq::<Seq<char>>::empty().push(trim(cmd)) =~= seq![trim(cmd)]);
}

/// A pipe-delimited line `ts|cmd|dir`, with `ts` an integer and no `|` in
/// `cmd` or `dir`, gives one entry per command of `cmd`, each with
/// timestamp `ts` and the directory that `dir` gives. A `cmd` without `&&`
/// that is not blank gives exactly one entry: `cmd` trimmed.
pub proof fn pipe_line_law(t: Seq<char>, cmd: Seq<char>, dir: Seq<char>, ts: i64)
    requires
        parse_i64(t) == Some(ts),
        !cmd.contains('|'),
        !dir.contains('|'),
    ensures
        log_line_entries(t + "|"@ + cmd + "|"@ + dir) == entries_for(compound_commands(cmd), ts, directory_of(dir)),
        !contains(cmd, "&&"@) && trim(cmd).len() > 0 ==> log_line_entries(t + "|"@ + cmd + "|"@ + dir)
            == seq![(ts, trim(cmd), directory_of(dir), None::<i64>, None::<i32>)],
{
    reveal_strlit("|");
    let bar = seq!['|'];
    assert("|"@ =~= bar);
    let l = t + bar + cmd + bar + dir;
    lemma_int_text_chars(t);
    let first_bar = t.len() as int;
    let second_bar = first_bar + 1 + cmd.len();
    assert forall|k: int| 0 <= k < first_bar implies l[k] != '|' by {
        assert(l[k] == t[k]);
    }
    assert forall|k: int| first_bar + 1 <= k < second_bar implies l[k] != '|' by {
        assert(l[k] == cmd[k - first_bar - 1]);
    }
    assert forall|k: int| second_bar + 1 <= k < l.len() implies l[k] != '|' by {
        assert(l[k] == dir[k - second_bar - 1]);
    }
    assert(l[first_bar] == '|');
    assert(l[second_bar] == '|');
    lemma_split_at_char(l, '|', 0, first_bar);
    lemma_split_at_char(l, '|', first_bar + 1, second_bar);
    lemma_split_at_char(l, '|', second_bar + 1, l.len() as int);
    assert(l.subrange(0, first_bar) =~= t);
    assert(l.subrange(first_bar + 1, second_bar) =~= cmd);
    assert(l.subrange(second_bar + 1, l.len() as int) =~= dir);
    assert(split(l, bar) =~= seq![t, cmd, dir]);
    if !contains(cmd, "&&"@) && trim(cmd).len() > 0 {
        single_command(cmd);
        assert(entries_for(seq![trim(cmd)], ts, directory_of(dir)) =~= seq![
            (ts, trim(cmd), directory_of(dir), None::<i64>, None::<i32>),
        ]);
    }
}

/// An extended line `: ts:0;cmd` of the shell's history file, with `ts` an
/// integer, gives one entry per non-empty `&&`-separated piece of `cmd`,
/// each with timestamp `ts`.
pub proof fn shell_line_law(t: Seq<char>, cmd: Seq<char>, ts: i64)
    requires
        parse_i64(t) == Some(ts),
    ensures
        ({
            let r = shell_line_entries(": "@ + t + ":0;"@ + cmd);
            &&& r == entries_for(compound_commands(cmd), ts, None)
            &&& r.len() == compound_commands(cmd).len()
            &&& forall|k: int| 0 <= k < r.len() ==> (#[trigger] r[k]).0 == ts
        }),
{
    reveal_strlit(": ");
    reveal_strlit(":0;");
    reveal_strlit(";");
    reveal_strlit(":");
    let mark = seq![':', ' '];
    let mid = seq![':', '0', ';'];
    assert(": "@ =~= mark);
    assert(":0;"@ =~= mid);
    assert(";"@ =~= seq![';']);
    assert(":"@ =~= seq![':']);
    let l = mark + t + mid + cmd;
    lemma_int_text_chars(t);
    let rest = l.subrange(2, l.len() as int);
    assert(rest =~= t + mid + cmd);
    let q = t.len() + 2int;
    assert forall|k: int| 0 <= k < q implies rest[k] != ';' by {
        if k < t.len() {
            assert(rest[k] == t[k]);
        }
    }
    assert(rest[q] == ';');
    lemma_split_at_char(rest, ';', 0, q);
    lemma_split_nonempty(rest, seq![';'], q + 1, q + 1);
    let halves = split(rest, ";"@);
    let head = halves[0];
    assert(head =~= t + seq![':', '0']);
    assert(rest.subrange(head.len() + 1int, rest.len() as int) =~= cmd);
    assert(!is_space(head[0]));
    assert(!is_space(head.last()));
    assert(trim_start(head) == head);
    assert(trim_end(head) == head);
    assert forall|k: int| 0 <= k < t.len() implies head[k] != ':' by {
        assert(head[k] == t[k]);
    }
    assert(head[t.len() as int] == ':');
    lemma_split_at_char(head, ':', 0, t.len() as int);
    assert(head.subrange(0, t.len() as int) =~= t);
    let r = shell_line_entries(l);
    assert(r == entries_for(compound_commands(cmd), ts, None));
}

/// An extended line `: ts:0;cmd` of the primary log, with `ts` an integer
/// and neither `|` nor `:` in `cmd`, gives one entry per non-empty
/// `&&`-separated piece of `cmd`, each with timestamp `ts` and no directory.
pub proof fn log_extended_line_law(t: Seq<char>, cmd: Seq<char>, ts: i64)
    requires
        parse_i64(t) == Some(ts),
        !cmd.contains('|'),
        !cmd.contains(':'),
    ensures
        ({
            let r = log_line_entries(": "@ + t + ":0;"@ + cmd);
            &&& r == entries_for(compound_commands(cmd), ts, None)
            &&& r.len() == compound_commands(cmd).len()
            &&& forall|k: int| 0 <= k < r.len() ==> (#[trigger] r[k]).0 == ts && r[k].2 is None
        }),
{
    reveal_strlit(": ");
    reveal_strlit(":0;");
    reveal_strlit(";");
    reveal_strlit(":");
    reveal_strlit("|");
    let mark = seq![':', ' '];
    let mid = seq![':', '0', ';'];
    assert(": "@ =~= mark);
    assert(":0;"@ =~= mid);
    assert(";"@ =~= seq![';']);
    assert(":"@ =~= seq![':']);
    assert("|"@ =~= seq!['|']);
    let l = mark + t + mid + cmd;
    lemma_int_text_chars(t);
    assert forall|k: int| 0 <= k < l.len() implies l[k] != '|' by {
        if 2 <= k < 2 + t.len() {
            assert(l[k] == t[k - 2]);
        } else if k >= t.len() + 5 {
            assert(l[k] == cmd[k - t.len() - 5]);
        }
    }
    lemma_split_at_char(l, '|', 0, l.len() as int);
    assert(!pipe_shaped(l));
    let rest = l.subrange(2, l.len() as int);
    assert(rest =~= t + mid + cmd);
    let q = t.len() + 2int;
    assert forall|k: int| 0 <= k < q implies rest[k] != ';' by {
        if k < t.len() {
            assert(rest[k] == t[k]);
        }
    }
    assert(rest[q] == ';');
    lemma_split_at_char(rest, ';', 0, q);
    lemma_split_nonempty(rest, seq![';'], q + 1, q + 1);
    let halves = split(rest, ";"@);
    let head = halves[0];
    assert(head =~= t + seq![':', '0']);
    let body = rest.subrange(head.len() + 1int, rest.len() as int);
    assert(body =~= cmd);
    assert forall|k: int| 0 <= k < t.len() implies head[k] != ':' by {
        assert(head[k] == t[k]);
    }
    assert(head[t.len() as int] == ':');
    lemma_split_at_char(head, ':', 0, t.len() as int);
    assert(head.subrange(0, t.len() as int) =~= t);
    lemma_split_at_char(body, ':', 0, body.len() as int);
    assert(body.subrange(0, body.len() as int) =~= body);
    let r = log_line_entries(l);
    assert(r == entries_for(compound_commands(cmd), ts, None));
}

} // verus!
