//! Frequency ranking: distinct keys with their counts, most frequent first,
//! ties in the order in which the keys were first seen.
use vstd::prelude::*;

verus! {

/// How many times `x` occurs in `keys`.
pub open spec fn count_of(keys: Seq<Seq<char>>, x: Seq<char>) -> nat
    decreases keys.len(),
{
    if keys.len() == 0 {
        0
    } else {
        count_of(keys.drop_last(), x) + if keys.last() == x {
            1nat
        } else {
            0nat
        }
    }
}

/// The position of the first occurrence of `x` in `keys` (`keys.len()` if none).
pub open spec fn first_seen(keys: Seq<Seq<char>>, x: Seq<char>) -> int
    decreases keys.len(),
{
    if keys.len() == 0 {
        0
    } else if keys.drop_last().contains(x) {
        first_seen(keys.drop_last(), x)
    } else if keys.last() == x {
        keys.len() - 1
    } else {
        keys.len() as int
    }
}

/// Whether `x` ranks before `y`: it occurs more often, or as often and was
/// seen first.
pub open spec fn ranks_before(keys: Seq<Seq<char>>, x: Seq<char>, y: Seq<char>) -> bool {
    ||| count_of(keys, x) > count_of(keys, y)
    ||| (count_of(keys, x) == count_of(keys, y) && first_seen(keys, x) < first_seen(keys, y))
}

/// Whether `r` is the frequency ranking of `keys`: each key of `keys` once,
/// with its count, in ranking order.
pub open spec fn is_ranking(keys: Seq<Seq<char>>, r: Seq<(Seq<char>, nat)>) -> bool {
    &&& forall|i: int| 0 <= i < r.len() ==> (#[trigger] r[i]).1 == count_of(keys, r[i].0) && r[i].1 > 0
    &&& forall|x: Seq<char>| keys.contains(x) ==> exists|i: int| 0 <= i < r.len() && (#[trigger] r[i]).0 == x
    &&& forall|i: int, j: int| 0 <= i < j < r.len() ==> ranks_before(keys, (#[trigger] r[i]).0, (#[trigger] r[j]).0)
}

pub open spec fn pairs_view(r: Seq<(String, usize)>) -> Seq<(Seq<char>, nat)> {
    r.map_values(|p: (String, usize)| (p.0@, p.1 as nat))
}

pub open spec fn strings_view(s: Seq<String>) -> Seq<Seq<char>> {
    s.map_values(|x: String| x@)
}

proof fn lemma_count_bound(keys: Seq<Seq<char>>, x: Seq<char>)
    ensures
        count_of(keys, x) <= keys.len(),
        keys.contains(x) <==> count_of(keys, x) > 0,
    decreases keys.len(),
{
    if keys.len() > 0 {
        lemma_count_bound(keys.drop_last(), x);
        if keys.drop_last().contains(x) {
            let i = choose|i: int| 0 <= i < keys.drop_last().len() && keys.drop_last()[i] == x;
            assert(keys[i] == x);
        }
        if keys.contains(x) && keys.last() != x {
            let i = choose|i: int| 0 <= i < keys.len() && keys[i] == x;
            assert(keys.drop_last()[i] == x);
        }
        if keys.last() == x {
            assert(keys[keys.len() - 1] == x);
        }
    }
}

proof fn lemma_first_seen_bound(keys: Seq<Seq<char>>, x: Seq<char>)
    requires
        keys.contains(x),
    ensures
        0 <= first_seen(keys, x) < keys.len(),
    decreases keys.len(),
{
    if keys.drop_last().contains(x) {
        lemma_first_seen_bound(keys.drop_last(), x);
    } else {
        let i = choose|i: int| 0 <= i < keys.len() && keys[i] == x;
        if i < keys.len() - 1 {
            assert(keys.drop_last()[i] == x);
        }
    }
}

/// The keys of `keys` with their counts, in the order first seen.
fn group(keys: &Vec<String>) -> (g: Vec<(String, usize)>)
    ensures
        ({
            let kv = strings_view(keys@);
            let gv = pairs_view(g@);
            &&& forall|i: int| 0 <= i < gv.len() ==> (#[trigger] gv[i]).1 == count_of(kv, gv[i].0) && gv[i].1 > 0
            &&& forall|x: Seq<char>| kv.contains(x) ==> exists|i: int| 0 <= i < gv.len() && (#[trigger] gv[i]).0 == x
            &&& forall|i: int, j: int| 0 <= i < j < gv.len() ==> first_seen(kv, (#[trigger] gv[i]).0) < first_seen(kv, (#[trigger] gv[j]).0)
        }),
{
    let ghost kv = strings_view(keys@);
    let mut g: Vec<(String, usize)> = Vec::new();
    let mut k: usize = 0;
    while k < keys.len()
        invariant
            k <= keys.len(),
            kv == strings_view(keys@),
            ({
                let p = kv.take(k as int);
                let gv = pairs_view(g@);
                &&& forall|i: int| 0 <= i < gv.len() ==> (#[trigger] gv[i]).1 == count_of(p, gv[i].0) && gv[i].1 > 0 && p.contains(gv[i].0)
                &&& forall|x: Seq<char>| p.contains(x) ==> exists|i: int| 0 <= i < gv.len() && (#[trigger] gv[i]).0 == x
                &&& forall|i: int, j: int| 0 <= i < j < gv.len() ==> first_seen(p, (#[trigger] gv[i]).0) < first_seen(p, (#[trigger] gv[j]).0)
                &&& forall|i: int| 0 <= i < gv.len() ==> (#[trigger] gv[i]).1 <= k
            }),
        decreases keys.len() - k,
    {
        let ghost p = kv.take(k as int);
        let ghost grown = kv.take(k + 1);
        let ghost x = keys@[k as int]@;
        assert(grown.drop_last() =~= p);
        assert(grown.last() == x);
        assert(forall|y: Seq<char>| grown.contains(y) <==> (p.contains(y) || y == x)) by {
            assert forall|y: Seq<char>| grown.contains(y) implies (p.contains(y) || y == x) by {
                let i = choose|i: int| 0 <= i < grown.len() && grown[i] == y;
                if i < k {
                    assert(p[i] == y);
                }
            }
            assert forall|y: Seq<char>| (p.contains(y) || y == x) implies grown.contains(y) by {
                if p.contains(y) {
                    let i = choose|i: int| 0 <= i < p.len() && p[i] == y;
                    assert(grown[i] == y);
                } else {
                    assert(grown[k as int] == y);
                }
            }
        }
        let ghost old_gv = pairs_view(g@);
        let mut j: usize = 0;
        let mut found = false;
        while j < g.len() && !found
            invariant
                j <= g.len(),
                k < keys.len(),
                x == keys@[k as int]@,
                found ==> j < g.len() && g@[j as int].0@ == x,
                !found ==> forall|q: int| 0 <= q < j ==> (#[trigger] g@[q]).0@ != x,
            decreases g.len() - j + if found {
                0int
            } else {
                1int
            },
        {
            if g[j].0 == keys[k] {
                found = true;
            } else {
                j = j + 1;
            }
        }
        proof {
            lemma_count_bound(p, x);
            assert forall|i: int| 0 <= i < old_gv.len() implies first_seen(grown, #[trigger] old_gv[i].0)
                == first_seen(p, old_gv[i].0) && first_seen(p, old_gv[i].0) < k by {
                lemma_first_seen_bound(p, old_gv[i].0);
            }
        }
        if found {
            let c = g[j].1;
            assert(old_gv[j as int].1 <= k);
            let name = g[j].0.clone();
            g.set(j, (name, c + 1));
            let ghost gv = pairs_view(g@);
            assert forall|i: int| 0 <= i < gv.len() implies (#[trigger] gv[i]).1 == count_of(grown, gv[i].0)
                && gv[i].1 > 0 && grown.contains(gv[i].0) && gv[i].1 <= k + 1 by {
                if i != j {
                    assert(old_gv[i] == gv[i]);
                    if gv[i].0 == x {
                        assert(old_gv[j as int].0 == x);
                        if i < j {
                            assert(first_seen(p, old_gv[i].0) < first_seen(p, old_gv[j as int].0));
                        } else {
                            assert(first_seen(p, old_gv[j as int].0) < first_seen(p, old_gv[i].0));
                        }
                    }
                }
            }
            assert forall|y: Seq<char>| grown.contains(y) implies exists|i: int| 0 <= i < gv.len() && (#[trigger] gv[i]).0 == y by {
                if y == x {
                    assert(gv[j as int].0 == y);
                } else {
                    let i = choose|i: int| 0 <= i < old_gv.len() && (#[trigger] old_gv[i]).0 == y;
                    assert(gv[i].0 == y);
                }
            }
            assert forall|a: int, b: int| 0 <= a < b < gv.len() implies first_seen(grown, (#[trigger] gv[a]).0) < first_seen(grown, (#[trigger] gv[b]).0) by {
                assert(gv[a].0 == old_gv[a].0);
                assert(gv[b].0 == old_gv[b].0);
            }
        } else {
            assert(!p.contains(x));
            g.push((keys[k].clone(), 1));
            let ghost gv = pairs_view(g@);
            assert(gv[gv.len() - 1] == (x, 1nat));
            assert(first_seen(grown, x) == k);
            assert forall|i: int| 0 <= i < gv.len() implies (#[trigger] gv[i]).1 == count_of(grown, gv[i].0)
                && gv[i].1 > 0 && grown.contains(gv[i].0) && gv[i].1 <= k + 1 by {
                if i < old_gv.len() {
                    assert(old_gv[i] == gv[i]);
                    assert(gv[i].0 != x);
                }
            }
            assert forall|y: Seq<char>| grown.contains(y) implies exists|i: int| 0 <= i < gv.len() && (#[trigger] gv[i]).0 == y by {
                if y == x {
                    assert(gv[gv.len() - 1].0 == y);
                } else {
                    let i = choose|i: int| 0 <= i < old_gv.len() && (#[trigger] old_gv[i]).0 == y;
                    assert(gv[i].0 == y);
                }
            }
            assert forall|a: int, b: int| 0 <= a < b < gv.len() implies first_seen(grown, (#[trigger] gv[a]).0) < first_seen(grown, (#[trigger] gv[b]).0) by {
                assert(gv[a].0 == old_gv[a].0);
                if b < old_gv.len() {
                    assert(gv[b].0 == old_gv[b].0);
                }
            }
        }
        k = k + 1;
    }
    assert(kv.take(k as int) =~= kv);
    g
}

#[verifier::opaque]
spec fn groups_ok(kv: Seq<Seq<char>>, gv: Seq<(Seq<char>, nat)>) -> bool {
    &&& forall|i: int| 0 <= i < gv.len() ==> (#[trigger] gv[i]).1 == count_of(kv, gv[i].0) && gv[i].1 > 0
    &&& forall|x: Seq<char>| kv.contains(x) ==> exists|i: int| 0 <= i < gv.len() && (#[trigger] gv[i]).0 == x
    &&& forall|i: int, j: int| 0 <= i < j < gv.len() ==> first_seen(kv, (#[trigger] gv[i]).0) < first_seen(kv, (#[trigger] gv[j]).0)
}

#[verifier::opaque]
spec fn drawn_from(ov: Seq<(Seq<char>, nat)>, gv: Seq<(Seq<char>, nat)>, m: int) -> bool {
    forall|i: int| 0 <= i < ov.len() ==> exists|a: int| 0 <= a < m && gv[a] == #[trigger] ov[i]
}

#[verifier::opaque]
spec fn covers(ov: Seq<(Seq<char>, nat)>, gv: Seq<(Seq<char>, nat)>, m: int) -> bool {
    forall|a: int| 0 <= a < m ==> exists|i: int| 0 <= i < ov.len() && #[trigger] gv[a] == ov[i]
}

#[verifier::opaque]
spec fn ordered(kv: Seq<Seq<char>>, ov: Seq<(Seq<char>, nat)>) -> bool {
    forall|i: int, j: int| 0 <= i < j < ov.len() ==> ranks_before(kv, (#[trigger] ov[i]).0, (#[trigger] ov[j]).0)
}

proof fn lemma_insert_drawn(gv: Seq<(Seq<char>, nat)>, ov: Seq<(Seq<char>, nat)>, m: int, p: int)
    requires
        0 <= m < gv.len(),
        drawn_from(ov, gv, m),
        0 <= p <= ov.len(),
    ensures
        drawn_from(ov.insert(p, gv[m]), gv, m + 1),
{
    reveal(drawn_from);
    let nv = ov.insert(p, gv[m]);
    assert forall|i: int| 0 <= i < nv.len() implies exists|a: int| 0 <= a < m + 1 && gv[a] == #[trigger] nv[i] by {
        if i < p {
            let a = choose|a: int| 0 <= a < m && gv[a] == ov[i];
            assert(gv[a] == nv[i]);
        } else if i == p {
            assert(gv[m] == nv[i]);
        } else {
            let a = choose|a: int| 0 <= a < m && gv[a] == ov[i - 1];
            assert(gv[a] == nv[i]);
        }
    }
}

proof fn lemma_insert_covers(gv: Seq<(Seq<char>, nat)>, ov: Seq<(Seq<char>, nat)>, m: int, p: int)
    requires
        0 <= m < gv.len(),
        covers(ov, gv, m),
        0 <= p <= ov.len(),
    ensures
        covers(ov.insert(p, gv[m]), gv, m + 1),
{
    reveal(covers);
    let nv = ov.insert(p, gv[m]);
    assert forall|a: int| 0 <= a < m + 1 implies exists|i: int| 0 <= i < nv.len() && #[trigger] gv[a] == nv[i] by {
        if a == m {
            assert(gv[a] == nv[p]);
        } else {
            let i = choose|i: int| 0 <= i < ov.len() && gv[a] == ov[i];
            if i < p {
                assert(gv[a] == nv[i]);
            } else {
                assert(gv[a] == nv[i + 1]);
            }
        }
    }
}

proof fn lemma_insert_ordered(
    kv: Seq<Seq<char>>,
    gv: Seq<(Seq<char>, nat)>,
    ov: Seq<(Seq<char>, nat)>,
    m: int,
    p: int,
)
    requires
        groups_ok(kv, gv),
        0 <= m < gv.len(),
        drawn_from(ov, gv, m),
        ordered(kv, ov),
        0 <= p <= ov.len(),
        forall|q: int| 0 <= q < p ==> (#[trigger] ov[q]).1 >= gv[m].1,
        p < ov.len() ==> ov[p].1 < gv[m].1,
    ensures
        ordered(kv, ov.insert(p, gv[m])),
{
    reveal(groups_ok);
    reveal(drawn_from);
    reveal(ordered);
    let nv = ov.insert(p, gv[m]);
    assert forall|i: int, j: int| 0 <= i < j < nv.len() implies ranks_before(kv, (#[trigger] nv[i]).0, (#[trigger] nv[j]).0) by {
        if j < p {
            assert(nv[i] == ov[i] && nv[j] == ov[j]);
        } else if j == p {
            assert(nv[i] == ov[i]);
            let a = choose|a: int| 0 <= a < m && gv[a] == ov[i];
            assert(first_seen(kv, gv[a].0) < first_seen(kv, gv[m].0));
            assert(ov[i].1 >= gv[m].1);
        } else if i == p {
            assert(nv[j] == ov[j - 1]);
            if j - 1 > p {
                assert(ranks_before(kv, ov[p].0, ov[j - 1].0));
            }
            let a = choose|a: int| 0 <= a < m && gv[a] == ov[j - 1];
            let b = choose|b: int| 0 <= b < m && gv[b] == ov[p];
        } else if i < p {
            assert(nv[i] == ov[i] && nv[j] == ov[j - 1]);
        } else {
            assert(nv[i] == ov[i - 1] && nv[j] == ov[j - 1]);
        }
    }
}

/// The frequency ranking of `keys`: each distinct key once with the number
/// of its occurrences, the most frequent first; keys that occur equally
/// often keep the order in which they were first seen.
pub fn rank(keys: &Vec<String>) -> (r: Vec<(String, usize)>)
    ensures
        is_ranking(strings_view(keys@), pairs_view(r@)),
{
    let g = group(keys);
    let ghost kv = strings_view(keys@);
    let ghost gv = pairs_view(g@);
    assert(groups_ok(kv, gv)) by {
        reveal(groups_ok);
    }
    proof {
        reveal(drawn_from);
        reveal(covers);
        reveal(ordered);
    }
    let mut out: Vec<(String, usize)> = Vec::new();
    let mut m: usize = 0;
    while m < g.len()
        invariant
            m <= g.len(),
            gv == pairs_view(g@),
            groups_ok(kv, gv),
            drawn_from(pairs_view(out@), gv, m as int),
            covers(pairs_view(out@), gv, m as int),
            ordered(kv, pairs_view(out@)),
        decreases g.len() - m,
    {
        let c = g[m].1;
        let ghost ov = pairs_view(out@);
        let mut p: usize = 0;
        while p < out.len() && out[p].1 >= c
            invariant
                p <= out.len(),
                ov == pairs_view(out@),
                gv[m as int].1 == c as nat,
                forall|q: int| 0 <= q < p ==> (#[trigger] ov[q]).1 >= c,
            decreases out.len() - p,
        {
            p = p + 1;
        }
        proof {
            lemma_insert_drawn(gv, ov, m as int, p as int);
            lemma_insert_covers(gv, ov, m as int, p as int);
            lemma_insert_ordered(kv, gv, ov, m as int, p as int);
        }
        out.insert(p, (g[m].0.clone(), c));
        assert(pairs_view(out@) =~= ov.insert(p as int, gv[m as int]));
        m = m + 1;
    }
    let ghost ov = pairs_view(out@);
    proof {
        reveal(groups_ok);
        reveal(drawn_from);
        reveal(covers);
        reveal(ordered);
    }
    assert forall|i: int| 0 <= i < ov.len() implies (#[trigger] ov[i]).1 == count_of(kv, ov[i].0) && ov[i].1 > 0 by {
        let a = choose|a: int| 0 <= a < m && gv[a] == ov[i];
    }
    assert forall|x: Seq<char>| kv.contains(x) implies exists|i: int| 0 <= i < ov.len() && (#[trigger] ov[i]).0 == x by {
        let a = choose|a: int| 0 <= a < gv.len() && (#[trigger] gv[a]).0 == x;
        let i = choose|i: int| 0 <= i < ov.len() && #[trigger] gv[a] == ov[i];
    }
    out
}

spec fn ranks_over(keys: Seq<Seq<char>>, r: Seq<(Seq<char>, nat)>, s: Set<Seq<char>>) -> bool {
    &&& forall|i: int| 0 <= i < r.len() ==> s.contains((#[trigger] r[i]).0) && r[i].1 == count_of(keys, r[i].0)
    &&& forall|x: Seq<char>| s.contains(x) ==> exists|i: int| 0 <= i < r.len() && (#[trigger] r[i]).0 == x
    &&& forall|i: int, j: int| 0 <= i < j < r.len() ==> ranks_before(keys, (#[trigger] r[i]).0, (#[trigger] r[j]).0)
}

proof fn lemma_ranking_unique(keys: Seq<Seq<char>>, r1: Seq<(Seq<char>, nat)>, r2: Seq<(Seq<char>, nat)>, s: Set<Seq<char>>)
    requires
        ranks_over(keys, r1, s),
        ranks_over(keys, r2, s),
    ensures
        r1 == r2,
    decreases r1.len(),
{
    if r1.len() == 0 {
        if r2.len() > 0 {
            assert(s.contains(r2[0].0));
        }
        assert(r1 =~= r2);
    } else {
        assert(s.contains(r1[0].0));
        let x = r1[0].0;
        let y = r2[0].0;
        if x != y {
            let i = choose|i: int| 0 <= i < r1.len() && (#[trigger] r1[i]).0 == y;
            let j = choose|j: int| 0 <= j < r2.len() && (#[trigger] r2[j]).0 == x;
            assert(ranks_before(keys, r1[0].0, r1[i].0));
            assert(ranks_before(keys, r2[0].0, r2[j].0));
        }
        assert(r1[0] == r2[0]);
        let t = s.remove(x);
        let a = r1.drop_first();
        let b = r2.drop_first();
        assert forall|i: int| 0 <= i < a.len() implies t.contains((#[trigger] a[i]).0) && a[i].1 == count_of(keys, a[i].0) by {
            assert(a[i] == r1[i + 1]);
            assert(ranks_before(keys, r1[0].0, r1[i + 1].0));
        }
        assert forall|z: Seq<char>| t.contains(z) implies exists|i: int| 0 <= i < a.len() && (#[trigger] a[i]).0 == z by {
            let i = choose|i: int| 0 <= i < r1.len() && (#[trigger] r1[i]).0 == z;
            assert(a[i - 1] == r1[i]);
        }
        assert forall|i: int, j: int| 0 <= i < j < a.len() implies ranks_before(keys, (#[trigger] a[i]).0, (#[trigger] a[j]).0) by {
            assert(a[i] == r1[i + 1] && a[j] == r1[j + 1]);
        }
        assert forall|i: int| 0 <= i < b.len() implies t.contains((#[trigger] b[i]).0) && b[i].1 == count_of(keys, b[i].0) by {
            assert(b[i] == r2[i + 1]);
            assert(ranks_before(keys, r2[0].0, r2[i + 1].0));
        }
        assert forall|z: Seq<char>| t.contains(z) implies exists|i: int| 0 <= i < b.len() && (#[trigger] b[i]).0 == z by {
            let i = choose|i: int| 0 <= i < r2.len() && (#[trigger] r2[i]).0 == z;
            assert(b[i - 1] == r2[i]);
        }
        assert forall|i: int, j: int| 0 <= i < j < b.len() implies ranks_before(keys, (#[trigger] b[i]).0, (#[trigger] b[j]).0) by {
            assert(b[i] == r2[i + 1] && b[j] == r2[j + 1]);
        }
        lemma_ranking_unique(keys, a, b, t);
        assert(r1 =~= seq![r1[0]] + a);
        assert(r2 =~= seq![r2[0]] + b);
    }
}

/// The frequency ranking depends only on how often each key occurs and on
/// the order in which the keys are first seen: two key sequences that agree
/// on both have the same ranking, whatever else differs in their order.
pub proof fn ranking_determined_by_counts_and_first_seen(
    a: Seq<Seq<char>>,
    b: Seq<Seq<char>>,
    ra: Seq<(Seq<char>, nat)>,
    rb: Seq<(Seq<char>, nat)>,
)
    requires
        is_ranking(a, ra),
        is_ranking(b, rb),
        forall|x: Seq<char>| #[trigger] count_of(a, x) == count_of(b, x),
        forall|x: Seq<char>, y: Seq<char>|
            a.contains(x) && a.contains(y) ==> (#[trigger] first_seen(a, x) < #[trigger] first_seen(a, y)
                <==> first_seen(b, x) < first_seen(b, y)),
    ensures
        ra == rb,
{
    let s = Set::new(|x: Seq<char>| a.contains(x));
    assert forall|x: Seq<char>| a.contains(x) <==> b.contains(x) by {
        lemma_count_bound(a, x);
        lemma_count_bound(b, x);
    }
    assert forall|i: int| 0 <= i < ra.len() implies s.contains((#[trigger] ra[i]).0) && ra[i].1 == count_of(a, ra[i].0) by {
        lemma_count_bound(a, ra[i].0);
    }
    assert forall|i: int| 0 <= i < rb.len() implies s.contains((#[trigger] rb[i]).0) && rb[i].1 == count_of(a, rb[i].0) by {
        lemma_count_bound(b, rb[i].0);
    }
    assert forall|i: int, j: int| 0 <= i < j < rb.len() implies ranks_before(a, (#[trigger] rb[i]).0, (#[trigger] rb[j]).0) by {
        lemma_count_bound(b, rb[i].0);
        lemma_count_bound(b, rb[j].0);
        assert(ranks_before(b, rb[i].0, rb[j].0));
    }
    lemma_ranking_unique(a, ra, rb, s);
}

} // verus!
