//! The order in which languages are charted: more bytes first, ties broken
//! by name.
use vstd::prelude::*;
use crate::text::{chars_of, lex_le, lex_le_exec, lemma_lex_le_total_order};
use crate::totals::{names_distinct, chars_eq};

verus! {

/// `a` is charted before `b`: it has more bytes, or as many bytes and a name
/// that comes first.
pub open spec fn ranks_before(a: (Seq<char>, u64), b: (Seq<char>, u64)) -> bool {
    a.1 > b.1 || (a.1 == b.1 && lex_le(a.0, b.0) && a.0 != b.0)
}

/// Each entry is charted before every later one.
pub open spec fn strictly_ranked(s: Seq<(Seq<char>, u64)>) -> bool {
    forall|i: int, j: int| 0 <= i < j < s.len() ==> ranks_before(#[trigger] s[i], #[trigger] s[j])
}

/// `top` is the first `min(k, |all|)` entries of `all` in chart order: in that
/// order, all taken from `all`, and every entry of `all` left out comes after
/// each of them.
pub open spec fn is_top_ranking(all: Seq<(Seq<char>, u64)>, top: Seq<(Seq<char>, u64)>, k: nat) -> bool {
    &&& top.len() == if k < all.len() { k } else { all.len() }
    &&& strictly_ranked(top)
    &&& forall|i: int| 0 <= i < top.len() ==> all.contains(#[trigger] top[i])
    &&& forall|e: (Seq<char>, u64)|
        #![trigger all.contains(e), top.contains(e)]
        all.contains(e) && !top.contains(e) ==> forall|i: int| 0 <= i < top.len() ==> ranks_before(#[trigger] top[i], e)
}

/// The chart order is a strict total order on entries with different names.
pub proof fn lemma_ranks_before_order(a: (Seq<char>, u64), b: (Seq<char>, u64), c: (Seq<char>, u64))
    ensures
        !ranks_before(a, a),
        ranks_before(a, b) ==> !ranks_before(b, a),
        a.0 != b.0 ==> ranks_before(a, b) || ranks_before(b, a),
        ranks_before(a, b) && ranks_before(b, c) ==> ranks_before(a, c),
{
    lemma_lex_le_total_order(a.0, b.0, c.0);
    lemma_lex_le_total_order(b.0, a.0, c.0);
    lemma_lex_le_total_order(a.0, c.0, b.0);
    lemma_lex_le_total_order(c.0, a.0, b.0);
}

/// Whether `a` is charted before `b`.
fn ranks_before_exec(a: &(String, u64), b: &(String, u64)) -> (r: bool)
    ensures
        r == ranks_before((a.0@, a.1), (b.0@, b.1)),
{
    if a.1 != b.1 {
        return a.1 > b.1;
    }
    let an = chars_of(a.0.as_str());
    let bn = chars_of(b.0.as_str());
    lex_le_exec(&an, &bn) && !chars_eq(&an, &bn)
}

/// The character views of owned entries.
pub open spec fn entry_views(s: Seq<(String, u64)>) -> Seq<(Seq<char>, u64)> {
    s.map_values(|e: (String, u64)| (e.0@, e.1))
}

/// Puts entries with distinct names into chart order.
pub fn rank_entries(entries: &Vec<(String, u64)>) -> (r: Vec<(String, u64)>)
    requires
        names_distinct(entry_views(entries@)),
    ensures
        is_top_ranking(entry_views(entries@), entry_views(r@), entries@.len()),
        forall|m: int| 0 <= m < entries@.len() ==> entry_views(r@).contains(#[trigger] entry_views(entries@)[m]),
{
    let ghost all = entry_views(entries@);
    let mut out: Vec<(String, u64)> = Vec::new();
    let mut i: usize = 0;
    while i < entries.len()
        invariant
            i <= entries@.len(),
            all == entry_views(entries@),
            names_distinct(all),
            entry_views(out@).len() == i,
            strictly_ranked(entry_views(out@)),
            forall|m: int| 0 <= m < i ==> entry_views(out@).contains(#[trigger] all[m]),
            forall|m: int| 0 <= m < out@.len() ==> all.take(i as int).contains(#[trigger] entry_views(out@)[m]),
        decreases entries@.len() - i,
    {
        let x = (entries[i].0.clone(), entries[i].1);
        let ghost xv = (x.0@, x.1);
        assert(xv == all[i as int]);
        let ghost ov = entry_views(out@);
        // No entry placed so far has the name of `x`.
        assert forall|m: int| 0 <= m < ov.len() implies #[trigger] ov[m].0 != xv.0 by {
            assert(all.take(i as int).contains(ov[m]));
            let t = choose|t: int| 0 <= t < i && all.take(i as int)[t] == ov[m];
            assert(all[t] == ov[m]);
        }
        let mut p = out.len();
        while p > 0 && !ranks_before_exec(&out[p - 1], &x)
            invariant
                p <= out@.len(),
                ov == entry_views(out@),
                xv == (x.0@, x.1),
                forall|m: int| p <= m < ov.len() ==> !ranks_before(#[trigger] ov[m], xv),
            decreases p,
        {
            p = p - 1;
        }
        out.insert(p, x);
        let ghost nv = entry_views(out@);
        assert(nv =~= ov.insert(p as int, xv));
        assert forall|a: int, b: int| 0 <= a < b < nv.len() implies ranks_before(#[trigger] nv[a], #[trigger] nv[b]) by {
            if b < p {
                assert(nv[a] == ov[a] && nv[b] == ov[b]);
            } else if b == p {
                assert(nv[a] == ov[a]);
                lemma_ranks_before_order(ov[a], ov[p - 1], xv);
            } else if a == p {
                assert(nv[b] == ov[b - 1]);
                lemma_ranks_before_order(xv, ov[b - 1], xv);
            } else if a < p {
                assert(nv[a] == ov[a] && nv[b] == ov[b - 1]);
                lemma_ranks_before_order(ov[b - 1], xv, xv);
                lemma_ranks_before_order(ov[a], ov[p - 1], xv);
                lemma_ranks_before_order(ov[a], xv, ov[b - 1]);
                if p > 0 {
                    assert(ranks_before(ov[a], xv) || a == p - 1);
                }
            } else {
                assert(nv[a] == ov[a - 1] && nv[b] == ov[b - 1]);
            }
        }
        assert forall|m: int| 0 <= m < i + 1 implies nv.contains(#[trigger] all[m]) by {
            if m == i {
                assert(nv[p as int] == xv);
            } else {
                assert(ov.contains(all[m]));
                let t = choose|t: int| 0 <= t < ov.len() && ov[t] == all[m];
                if t < p {
                    assert(nv[t] == ov[t]);
                } else {
                    assert(nv[t + 1] == ov[t]);
                }
            }
        }
        assert forall|m: int| 0 <= m < nv.len() implies all.take(i + 1).contains(#[trigger] nv[m]) by {
            if m == p {
                assert(all.take(i + 1)[i as int] == xv);
            } else {
                let om = if m < p { m } else { m - 1 };
                assert(nv[m] == ov[om]);
                assert(all.take(i as int).contains(ov[om]));
                let t = choose|t: int| 0 <= t < i && all.take(i as int)[t] == ov[om];
                assert(all.take(i + 1)[t] == ov[om]);
            }
        }
        i = i + 1;
    }
    let ghost rv = entry_views(out@);
    assert(all.take(i as int) =~= all);
    assert forall|e: (Seq<char>, u64)| all.contains(e) && !rv.contains(e) implies forall|m: int|
        0 <= m < rv.len() ==> ranks_before(#[trigger] rv[m], e) by {
        let t = choose|t: int| 0 <= t < all.len() && all[t] == e;
        assert(rv.contains(all[t]));
    }
    out
}

/// In chart order no name occurs twice.
pub proof fn lemma_ranked_names_distinct(all: Seq<(Seq<char>, u64)>, top: Seq<(Seq<char>, u64)>)
    requires
        names_distinct(all),
        strictly_ranked(top),
        forall|i: int| 0 <= i < top.len() ==> all.contains(#[trigger] top[i]),
    ensures
        names_distinct(top),
{
    assert forall|i: int, j: int| 0 <= i < j < top.len() implies #[trigger] top[i].0 != #[trigger] top[j].0 by {
        assert(ranks_before(top[i], top[j]));
        lemma_ranks_before_order(top[i], top[j], top[j]);
        assert(all.contains(top[i]) && all.contains(top[j]));
        let a = choose|a: int| 0 <= a < all.len() && all[a] == top[i];
        let b = choose|b: int| 0 <= b < all.len() && all[b] == top[j];
        assert(a != b);
    }
}

/// Two top rankings of the same entries agree on their first `i` positions,
/// for every `i` up to the length of the shorter.
proof fn lemma_top_rankings_agree(
    all: Seq<(Seq<char>, u64)>,
    a: Seq<(Seq<char>, u64)>,
    k: nat,
    b: Seq<(Seq<char>, u64)>,
    m: nat,
    i: int,
)
    requires
        is_top_ranking(all, a, k),
        is_top_ranking(all, b, m),
        k <= m,
        0 <= i <= a.len(),
    ensures
        forall|j: int| 0 <= j < i ==> #[trigger] a[j] == b[j],
    decreases i,
{
    if i > 0 {
        let n = i - 1;
        lemma_top_rankings_agree(all, a, k, b, m, n);
        let x = a[n];
        let y = b[n];
        if x != y {
            // Neither can come earlier in the other list: the prefixes agree,
            // and no entry ranks before itself.
            assert(all.contains(x) && all.contains(y));
            lemma_ranks_before_order(x, y, x);
            lemma_ranks_before_order(y, x, y);
            if a.contains(y) {
                let j = choose|j: int| 0 <= j < a.len() && a[j] == y;
                if j < n {
                    assert(a[j] == b[j]);
                    assert(ranks_before(b[j], b[n]));
                    lemma_ranks_before_order(y, y, y);
                }
                assert(j != n);
                assert(ranks_before(a[n], a[j]));
            } else {
                assert(ranks_before(a[n], y));
            }
            // Here `x` ranks before `y`.
            if b.contains(x) {
                let l = choose|l: int| 0 <= l < b.len() && b[l] == x;
                if l < n {
                    assert(a[l] == b[l]);
                    assert(ranks_before(a[l], a[n]));
                    lemma_ranks_before_order(x, x, x);
                }
                assert(l != n);
                assert(ranks_before(b[n], b[l]));
            } else {
                assert(ranks_before(b[n], x));
            }
        }
    }
}

/// A shorter top ranking is the start of a longer one of the same entries:
/// the first six languages charted are the first six of the full chart.
pub proof fn top_ranking_is_prefix(all: Seq<(Seq<char>, u64)>, short: Seq<(Seq<char>, u64)>, k: nat, long: Seq<(Seq<char>, u64)>, m: nat)
    requires
        is_top_ranking(all, short, k),
        is_top_ranking(all, long, m),
        k <= m,
    ensures
        short == long.take(short.len() as int),
{
    lemma_top_rankings_agree(all, short, k, long, m, short.len() as int);
    assert(short =~= long.take(short.len() as int));
}

/// The chart order does not depend on the order in which the totals are held:
/// top rankings of two arrangements of the same entries are equal.
pub proof fn top_ranking_ignores_holding_order(
    a: Seq<(Seq<char>, u64)>,
    b: Seq<(Seq<char>, u64)>,
    x: Seq<(Seq<char>, u64)>,
    y: Seq<(Seq<char>, u64)>,
    k: nat,
)
    requires
        a.to_multiset() == b.to_multiset(),
        is_top_ranking(a, x, k),
        is_top_ranking(b, y, k),
    ensures
        x == y,
{
    broadcast use vstd::seq_lib::group_to_multiset_ensures;

    assert forall|e: (Seq<char>, u64)| a.contains(e) <==> b.contains(e) by {
        assert(a.contains(e) <==> a.to_multiset().count(e) > 0);
        assert(b.contains(e) <==> b.to_multiset().count(e) > 0);
    }
    assert(a.len() == b.len()) by {
        assert(a.to_multiset().len() == a.len());
        assert(b.to_multiset().len() == b.len());
    }
    assert(is_top_ranking(a, y, k));
    top_ranking_is_prefix(a, x, k, y, k);
    assert(x =~= y);
}

} // verus!
