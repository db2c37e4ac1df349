//! The figures that the detail screen shows for one entry of the history:
//! its neighbours, how often and how recently its command ran, commands
//! that start with the same word, and when in the day and on which days
//! it ran.
use vstd::prelude::*;

use crate::history::HistoryEntry;
use crate::history::opt_text;
use crate::rank::strings_view;
use crate::stats::{
    count_where, equal_buckets_all_peak, is_peak, lemma_count_single, level_of, selected, stamp_hour,
    HourLevel, LocalStamp,
};
use crate::text::{chars_of, first_word, first_word_range};

verus! {

/// The figures for one entry.
#[derive(Debug, Clone)]
pub struct CommandDetail {
    /// The entry's place in the history, from 1 for the oldest.
    pub position: usize,
    /// The command of the entry before, if any.
    pub previous: Option<String>,
    /// The command of the entry after, if any.
    pub next: Option<String>,
    /// Entries with the same command.
    pub total_runs: usize,
    /// Entries with the same command within the day up to this entry's time.
    pub recent_runs: usize,
    /// The first three other commands that start with the same word.
    pub similar: Vec<String>,
    /// Timestamped entries with the same command per local hour (24 buckets).
    pub hours: Vec<usize>,
    /// The latest seven local dates (month, day) on which the command ran,
    /// oldest first, with the number of runs on each.
    pub days: Vec<((u32, u32), usize)>,
}

/// The first word of `s`, or the empty text when `s` is blank.
pub open spec fn lead_word(s: Seq<char>) -> Seq<char> {
    match first_word(s) {
        Some(w) => w,
        None => seq![],
    }
}

pub open spec fn same_command(es: Seq<HistoryEntry>, i: int, j: int) -> bool {
    es[j].command@ == es[i].command@
}

/// Whether entry `j` is similar to entry `i`: another command with the same first word.
pub open spec fn similar_to(es: Seq<HistoryEntry>, i: int, j: int) -> bool {
    lead_word(es[j].command@) == lead_word(es[i].command@) && es[j].command@ != es[i].command@
}

pub open spec fn day_of(s: Option<LocalStamp>) -> Option<(u32, u32)> {
    match s {
        Some(x) => Some((x.month, x.day)),
        None => None,
    }
}

/// Order of local dates within a year: by month, then day.
pub open spec fn date_before(a: (u32, u32), b: (u32, u32)) -> bool {
    a.0 < b.0 || (a.0 == b.0 && a.1 < b.1)
}

/// Whether entry `q` is a timestamped run of `cmd` on local date `key`.
pub open spec fn run_on(es: Seq<HistoryEntry>, ls: Seq<Option<LocalStamp>>, cmd: Seq<char>, q: int, key: (u32, u32)) -> bool {
    es[q].command@ == cmd && es[q].timestamp > 0 && day_of(ls[q]) == Some(key)
}

/// Timestamped runs of `cmd` among the first `j` entries on local date `key`.
pub open spec fn runs_on(es: Seq<HistoryEntry>, ls: Seq<Option<LocalStamp>>, cmd: Seq<char>, j: int, key: (u32, u32)) -> nat {
    count_where(j, |q: int| run_on(es, ls, cmd, q, key))
}

fn lead_word_of(s: &String) -> (r: String)
    ensures
        r@ == lead_word(s@),
{
    let cs = chars_of(s.as_str());
    match first_word_range(&cs) {
        Some((a, b)) => crate::text::text_of(s.as_str(), a, b),
        None => String::new(),
    }
}

proof fn lemma_count_step(j: int, p: spec_fn(int) -> bool)
    requires
        j >= 0,
    ensures
        count_where(j + 1, p) == count_where(j, p) + if p(j) { 1nat } else { 0nat },
        count_where(j, p) <= j,
    decreases j,
{
    if j > 0 {
        lemma_count_step(j - 1, p);
    }
}

/// Whether `days` lists, oldest first, each date with a positive count
/// under `f`, with that count.
#[verifier::opaque]
pub open spec fn lists_counts(days: Seq<((u32, u32), usize)>, f: spec_fn((u32, u32)) -> nat) -> bool {
    &&& forall|a: int, b: int| 0 <= a < b < days.len() ==> date_before((#[trigger] days[a]).0, (#[trigger] days[b]).0)
    &&& forall|a: int| 0 <= a < days.len() ==> (#[trigger] days[a]).1 == f(days[a].0) && days[a].1 > 0
    &&& forall|key: (u32, u32)| #[trigger] f(key) > 0 ==> exists|a: int| 0 <= a < days.len() && days[a].0 == key
}

proof fn lemma_bump(
    d: Seq<((u32, u32), usize)>,
    f: spec_fn((u32, u32)) -> nat,
    g: spec_fn((u32, u32)) -> nat,
    p: int,
    key: (u32, u32),
)
    requires
        lists_counts(d, f),
        forall|k: (u32, u32)| #[trigger] g(k) == f(k) + if k == key { 1nat } else { 0nat },
        0 <= p < d.len(),
        d[p].0 == key,
        d[p].1 + 1 <= usize::MAX,
    ensures
        lists_counts(d.update(p, (key, (d[p].1 + 1) as usize)), g),
{
    reveal(lists_counts);
    let e = d.update(p, (key, (d[p].1 + 1) as usize));
    assert forall|a: int| 0 <= a < e.len() implies (#[trigger] e[a]).1 == g(e[a].0) && e[a].1 > 0 by {
        if a != p {
            assert(e[a] == d[a]);
            if a < p {
                assert(date_before(d[a].0, d[p].0));
            } else {
                assert(date_before(d[p].0, d[a].0));
            }
        }
    }
    assert forall|k: (u32, u32)| #[trigger] g(k) > 0 implies exists|a: int| 0 <= a < e.len() && e[a].0 == k by {
        if k == key {
            assert(e[p].0 == k);
        } else {
            assert(f(k) > 0);
            let a = choose|a: int| 0 <= a < d.len() && d[a].0 == k;
            assert(e[a].0 == k);
        }
    }
    assert forall|a: int, b: int| 0 <= a < b < e.len() implies date_before((#[trigger] e[a]).0, (#[trigger] e[b]).0) by {
        assert(d[a].0 == e[a].0 && d[b].0 == e[b].0);
    }
}

proof fn lemma_add(
    d: Seq<((u32, u32), usize)>,
    f: spec_fn((u32, u32)) -> nat,
    g: spec_fn((u32, u32)) -> nat,
    p: int,
    key: (u32, u32),
)
    requires
        lists_counts(d, f),
        forall|k: (u32, u32)| #[trigger] g(k) == f(k) + if k == key { 1nat } else { 0nat },
        0 <= p <= d.len(),
        forall|a: int| 0 <= a < p ==> date_before((#[trigger] d[a]).0, key),
        p < d.len() ==> d[p].0 != key && !date_before(d[p].0, key),
    ensures
        lists_counts(d.insert(p, (key, 1usize)), g),
{
    reveal(lists_counts);
    assert(f(key) == 0) by {
        if f(key) > 0 {
            let a = choose|a: int| 0 <= a < d.len() && d[a].0 == key;
            if a > p {
                assert(date_before(d[p].0, d[a].0));
            }
        }
    }
    let e = d.insert(p, (key, 1usize));
    assert forall|a: int| 0 <= a < e.len() implies (#[trigger] e[a]).1 == g(e[a].0) && e[a].1 > 0 by {
        if a < p {
            assert(e[a] == d[a]);
        } else if a > p {
            assert(e[a] == d[a - 1]);
            if a - 1 > p {
                assert(date_before(d[p].0, d[a - 1].0));
            }
        }
    }
    assert forall|k: (u32, u32)| #[trigger] g(k) > 0 implies exists|a: int| 0 <= a < e.len() && e[a].0 == k by {
        if k == key {
            assert(e[p].0 == k);
        } else {
            assert(f(k) > 0);
            let a = choose|a: int| 0 <= a < d.len() && d[a].0 == k;
            if a < p {
                assert(e[a].0 == k);
            } else {
                assert(e[a + 1].0 == k);
            }
        }
    }
    assert forall|a: int, b: int| 0 <= a < b < e.len() implies date_before((#[trigger] e[a]).0, (#[trigger] e[b]).0) by {
        if b < p {
            assert(d[a].0 == e[a].0 && d[b].0 == e[b].0);
        } else if b == p {
            assert(d[a].0 == e[a].0);
        } else if a == p {
            assert(e[b] == d[b - 1]);
            if b - 1 > p {
                assert(date_before(d[p].0, d[b - 1].0));
            }
        } else if a < p {
            assert(d[a].0 == e[a].0 && d[b - 1].0 == e[b].0);
        } else {
            assert(d[a - 1].0 == e[a].0 && d[b - 1].0 == e[b].0);
        }
    }
}

/// All dates on which `cmd` ran, oldest first, with their counts.
fn all_days(entries: &Vec<HistoryEntry>, local: &Vec<Option<LocalStamp>>, cmd: &String) -> (r: Vec<((u32, u32), usize)>)
    requires
        local.len() == entries.len(),
    ensures
        lists_counts(r@, |k: (u32, u32)| runs_on(entries@, local@, cmd@, entries.len() as int, k)),
        forall|a: int| 0 <= a < r.len() ==> (#[trigger] r@[a]).1 <= entries.len(),
{
    let ghost es = entries@;
    let ghost ls = local@;
    let mut all: Vec<((u32, u32), usize)> = Vec::new();
    proof {
        reveal(lists_counts);
    }
    let mut j: usize = 0;
    while j < entries.len()
        invariant
            j <= entries.len() == local.len(),
            es == entries@,
            ls == local@,
            lists_counts(all@, |k: (u32, u32)| runs_on(es, ls, cmd@, j as int, k)),
            forall|a: int| 0 <= a < all.len() ==> (#[trigger] all@[a]).1 <= j,
        decreases entries.len() - j,
    {
        let ghost old_all = all@;
        let ghost f = |k: (u32, u32)| runs_on(es, ls, cmd@, j as int, k);
        let ghost g = |k: (u32, u32)| runs_on(es, ls, cmd@, j + 1, k);
        proof {
            assert forall|key: (u32, u32)| #[trigger] g(key) == f(key) + if run_on(es, ls, cmd@, j as int, key) { 1nat } else { 0nat } by {
                lemma_count_step(j as int, |q: int| run_on(es, ls, cmd@, q, key));
            }
        }
        let hit = match local[j] {
            Some(st) => if entries[j].timestamp > 0 && entries[j].command == *cmd {
                Some((st.month, st.day))
            } else {
                None
            },
            None => None,
        };
        match hit {
            Some(key) => {
                assert(forall|k: (u32, u32)| #[trigger] g(k) == f(k) + if k == key { 1nat } else { 0nat });
                let mut p: usize = 0;
                while p < all.len() && (all[p].0.0 < key.0 || (all[p].0.0 == key.0 && all[p].0.1 < key.1))
                    invariant
                        p <= all.len(),
                        all@ == old_all,
                        forall|a: int| 0 <= a < p ==> date_before((#[trigger] all@[a]).0, key),
                    decreases all.len() - p,
                {
                    p = p + 1;
                }
                if p < all.len() && all[p].0.0 == key.0 && all[p].0.1 == key.1 {
                    let c = all[p].1;
                    proof {
                        lemma_bump(old_all, f, g, p as int, key);
                    }
                    all.set(p, (key, c + 1));
                } else {
                    proof {
                        lemma_add(old_all, f, g, p as int, key);
                    }
                    all.insert(p, (key, 1));
                }
                assert forall|a: int| 0 <= a < all.len() implies (#[trigger] all@[a]).1 <= j + 1 by {
                    if a < p {
                        assert(all@[a] == old_all[a]);
                    } else if a > p {
                        assert(all@[a] == old_all[a] || all@[a] == old_all[a - 1]);
                    }
                }
            },
            None => {
                assert(forall|k: (u32, u32)| #[trigger] g(k) == f(k));
                assert(g =~= f);
            },
        }
        j = j + 1;
    }
    all
}

/// Whether `days` holds the latest `limit` dates with a positive count
/// under `f` (all of them if fewer), oldest first, each with its count.
pub open spec fn latest_dates(days: Seq<((u32, u32), usize)>, f: spec_fn((u32, u32)) -> nat, limit: nat) -> bool {
    &&& forall|a: int, b: int| 0 <= a < b < days.len() ==> date_before((#[trigger] days[a]).0, (#[trigger] days[b]).0)
    &&& forall|a: int| 0 <= a < days.len() ==> (#[trigger] days[a]).1 == f(days[a].0) && days[a].1 > 0
    &&& days.len() <= limit
    &&& forall|key: (u32, u32)| #[trigger] f(key) > 0 && !(exists|a: int| 0 <= a < days.len() && days[a].0 == key)
        ==> days.len() == limit && date_before(key, days[0].0)
}

/// The last `limit` elements of `all`.
fn keep_latest(all: Vec<((u32, u32), usize)>, limit: usize, f: Ghost<spec_fn((u32, u32)) -> nat>) -> (r: Vec<((u32, u32), usize)>)
    requires
        lists_counts(all@, f@),
        limit > 0,
    ensures
        latest_dates(r@, f@, limit as nat),
{
    proof {
        reveal(lists_counts);
    }
    let start = if all.len() > limit { all.len() - limit } else { 0 };
    let mut out: Vec<((u32, u32), usize)> = Vec::new();
    let mut i = start;
    while i < all.len()
        invariant
            start <= i <= all.len(),
            out@ == all@.subrange(start as int, i as int),
        decreases all.len() - i,
    {
        out.push(all[i]);
        assert(out@ =~= all@.subrange(start as int, i + 1));
        i = i + 1;
    }
    assert forall|key: (u32, u32)| #[trigger] f@(key) > 0 && !(exists|a: int| 0 <= a < out.len() && out@[a].0 == key)
        implies out.len() == limit && date_before(key, out@[0].0) by {
        let a = choose|a: int| 0 <= a < all.len() && all@[a].0 == key;
        if a >= start {
            assert(out@[a - start].0 == key);
        }
        assert(date_before(all@[a].0, all@[start as int].0));
    }
    assert forall|a: int, b: int| 0 <= a < b < out.len() implies date_before((#[trigger] out@[a]).0, (#[trigger] out@[b]).0) by {
        assert(out@[a] == all@[a + start] && out@[b] == all@[b + start]);
    }
    assert forall|a: int| 0 <= a < out.len() implies (#[trigger] out@[a]).1 == f@(out@[a].0) && out@[a].1 > 0 by {
        assert(out@[a] == all@[a + start]);
    }
    out
}

pub open spec fn similar_commands(es: Seq<HistoryEntry>, i: int) -> Seq<Seq<char>> {
    let sel = selected(es.len() as int, |j: int| similar_to(es, i, j));
    sel.take(if sel.len() < 3 { sel.len() as int } else { 3 }).map_values(|j: int| es[j].command@)
}

/// The first three commands similar to that of entry `index`, in history order.
fn similar_of(entries: &Vec<HistoryEntry>, index: usize) -> (r: Vec<String>)
    requires
        index < entries.len(),
    ensures
        strings_view(r@) == similar_commands(entries@, index as int),
{
    let ghost es = entries@;
    let ghost p = |j: int| similar_to(es, index as int, j);
    let target = lead_word_of(&entries[index].command);
    let mut out: Vec<String> = Vec::new();
    let mut j: usize = 0;
    while j < entries.len()
        invariant
            j <= entries.len(),
            index < entries.len(),
            es == entries@,
            p == (|j: int| similar_to(es, index as int, j)),
            target@ == lead_word(es[index as int].command@),
            strings_view(out@) == selected(j as int, p).take(
                if selected(j as int, p).len() < 3 { selected(j as int, p).len() as int } else { 3 },
            ).map_values(|q: int| es[q].command@),
        decreases entries.len() - j,
    {
        let ghost sel = selected(j as int, p);
        let w = lead_word_of(&entries[j].command);
        if w == target && entries[j].command != entries[index].command {
            assert(p(j as int));
            assert(selected(j + 1, p) == sel.push(j as int));
            if out.len() < 3 {
                let ghost before = strings_view(out@);
                out.push(entries[j].command.clone());
                assert(strings_view(out@) =~= before.push(es[j as int].command@));
                assert(sel.push(j as int).take(sel.len() + 1int) =~= sel.take(sel.len() as int).push(j as int));
                assert(sel.take(sel.len() as int) =~= sel);
                assert(sel.push(j as int).take(sel.len() + 1int).map_values(|q: int| es[q].command@)
                    =~= before.push(es[j as int].command@));
            } else {
                assert(strings_view(out@).len() == out.len());
                assert(sel.len() >= 3);
                assert(sel.push(j as int).take(3) =~= sel.take(3));
            }
        } else {
            assert(!p(j as int));
        }
        j = j + 1;
    }
    out
}

/// Whether `r` holds the figures for entry `i` of `es`, given the local
/// stamps `ls` of the entries.
pub open spec fn detail_of(r: CommandDetail, es: Seq<HistoryEntry>, ls: Seq<Option<LocalStamp>>, i: int) -> bool {
    let n = es.len() as int;
    let cmd = es[i].command@;
    &&& r.position == i + 1
    &&& opt_text(r.previous) == if i > 0 { Some(es[i - 1].command@) } else { None }
    &&& opt_text(r.next) == if i + 1 < n { Some(es[i + 1].command@) } else { None }
    &&& r.total_runs == count_where(n, |j: int| same_command(es, i, j))
    &&& r.recent_runs == count_where(n, |j: int| same_command(es, i, j) && es[j].timestamp > es[i].timestamp - 86400)
    &&& strings_view(r.similar@) == similar_commands(es, i)
    &&& r.hours.len() == 24
    &&& forall|h: int| 0 <= h < 24 ==> #[trigger] r.hours@[h] == count_where(
        n,
        |j: int| same_command(es, i, j) && es[j].timestamp > 0 && stamp_hour(ls[j]) == h,
    )
    &&& latest_dates(r.days@, |k: (u32, u32)| runs_on(es, ls, cmd, n, k), 7)
}

/// The figures for entry `index` of `entries`, given the local stamps of the entries.
pub fn command_detail(entries: &Vec<HistoryEntry>, local: &Vec<Option<LocalStamp>>, index: usize) -> (r: CommandDetail)
    requires
        index < entries.len(),
        local.len() == entries.len(),
    ensures
        detail_of(r, entries@, local@, index as int),
{
    let ghost es = entries@;
    let ghost i = index as int;
    let cmd = &entries[index].command;
    let t = entries[index].timestamp as i128 - 86400;
    let mut total: usize = 0;
    let mut recent: usize = 0;
    let mut j: usize = 0;
    while j < entries.len()
        invariant
            j <= entries.len(),
            index < entries.len(),
            es == entries@,
            cmd@ == es[i].command@,
            t == es[i].timestamp - 86400,
            total <= j,
            recent <= j,
            total == count_where(j as int, |q: int| same_command(es, i, q)),
            recent == count_where(j as int, |q: int| same_command(es, i, q) && es[q].timestamp > es[i].timestamp - 86400),
        decreases entries.len() - j,
    {
        if entries[j].command == *cmd {
            total = total + 1;
            if entries[j].timestamp as i128 > t {
                recent = recent + 1;
            }
        }
        j = j + 1;
    }
    let mut hours: Vec<usize> = Vec::new();
    let mut h: u32 = 0;
    while h < 24
        invariant
            h <= 24,
            hours.len() == h,
            index < entries.len() == local.len(),
            es == entries@,
            cmd@ == es[i].command@,
            forall|q: int| 0 <= q < h ==> #[trigger] hours@[q] == count_where(
                es.len() as int,
                |j: int| same_command(es, i, j) && es[j].timestamp > 0 && stamp_hour(local@[j]) == q,
            ),
        decreases 24 - h,
    {
        let mut c: usize = 0;
        let mut k: usize = 0;
        while k < entries.len()
            invariant
                k <= entries.len() == local.len(),
                index < entries.len(),
                es == entries@,
                cmd@ == es[i].command@,
                c <= k,
                c == count_where(k as int, |j: int| same_command(es, i, j) && es[j].timestamp > 0 && stamp_hour(local@[j]) == h as int),
            decreases entries.len() - k,
        {
            let hit = match local[k] {
                Some(st) => st.hour == h,
                None => false,
            };
            if hit && entries[k].timestamp > 0 && entries[k].command == *cmd {
                c = c + 1;
            }
            k = k + 1;
        }
        hours.push(c);
        h = h + 1;
    }
    let all = all_days(entries, local, cmd);
    let days = keep_latest(all, 7, Ghost(|k: (u32, u32)| runs_on(es, local@, es[i].command@, es.len() as int, k)));
    CommandDetail {
        position: index + 1,
        previous: if index > 0 { Some(entries[index - 1].command.clone()) } else { None },
        next: if index + 1 < entries.len() { Some(entries[index + 1].command.clone()) } else { None },
        total_runs: total,
        recent_runs: recent,
        similar: similar_of(entries, index),
        hours,
        days,
    }
}

/// Twenty-four timestamped runs of one command, one in each local hour,
/// give that command one run per hour; so every hour is a peak time (two
/// thirds of 1 truncates to 0) and none is below the mean.
pub proof fn one_run_per_hour(r: CommandDetail, es: Seq<HistoryEntry>, ls: Seq<Option<LocalStamp>>, i: int)
    requires
        0 <= i < 24,
        detail_of(r, es, ls, i),
        es.len() == 24,
        ls.len() == 24,
        forall|h: int| 0 <= h < 24 ==> (#[trigger] es[h]).command@ == es[i].command@,
        forall|h: int| 0 <= h < 24 ==> es[h].timestamp > 0 && stamp_hour(#[trigger] ls[h]) == h,
    ensures
        forall|h: int| 0 <= h < 24 ==> #[trigger] r.hours@[h] == 1,
        forall|h: int| 0 <= h < 24 ==> #[trigger] is_peak(r.hours@, h) && level_of(r.hours@, h) == HourLevel::AtOrAbove,
{
    assert forall|h: int| 0 <= h < 24 implies #[trigger] r.hours@[h] == 1 by {
        let p = |j: int| same_command(es, i, j) && es[j].timestamp > 0 && stamp_hour(ls[j]) == h;
        assert forall|j: int| 0 <= j < 24 implies (#[trigger] p(j) <==> j == h) by {
            assert(stamp_hour(ls[j]) == j);
            assert(es[j].command@ == es[i].command@);
        }
        lemma_count_single(24, p, h);
    }
    equal_buckets_all_peak(r.hours@, 1);
}

/// The height, 0 to 5, of the bar for `count` against the largest count
/// `max`: five times their ratio, rounded half up.
pub fn intensity(count: usize, max: usize) -> (r: usize)
    requires
        count <= max,
        max > 0,
    ensures
        r == (10 * count + max) / (2 * max),
        r <= 5,
{
    let num = 10 * (count as u128) + max as u128;
    let den = 2 * (max as u128);
    assert(num / den <= 5) by (nonlinear_arith)
        requires
            num == 10 * count + max,
            den == 2 * max,
            count <= max,
            max > 0,
    ;
    (num / den) as usize
}

} // verus!
