//! A stable sort of strings by a key string, in the lexicographic order of
//! the keys.
use vstd::prelude::*;
use crate::text::{lex_le, lex_le_exec, lemma_lex_le_total_order};

verus! {

/// A string together with the key it is sorted by.
pub struct Keyed {
    pub key: Vec<char>,
    pub item: String,
}

/// A keyed string as a pair of character sequences `(key, item)`.
pub open spec fn keyed_view(k: Keyed) -> (Seq<char>, Seq<char>) {
    (k.key@, k.item@)
}

/// The views of a sequence of keyed strings.
pub open spec fn keyed_views(s: Seq<Keyed>) -> Seq<(Seq<char>, Seq<char>)> {
    s.map_values(|k: Keyed| keyed_view(k))
}

/// The items of a sequence of `(key, item)` pairs.
pub open spec fn items_of(s: Seq<(Seq<char>, Seq<char>)>) -> Seq<Seq<char>> {
    s.map_values(|p: (Seq<char>, Seq<char>)| p.1)
}

/// `x` placed into `s` after every element whose key is not greater than its
/// own key, and before the others at the end.
pub open spec fn insert_by_key(s: Seq<(Seq<char>, Seq<char>)>, x: (Seq<char>, Seq<char>)) -> Seq<
    (Seq<char>, Seq<char>),
>
    decreases s.len(),
{
    if s.len() == 0 {
        seq![x]
    } else if lex_le(s.last().0, x.0) {
        s.push(x)
    } else {
        insert_by_key(s.drop_last(), x).push(s.last())
    }
}

/// The stable sort of `s` by key: the elements taken in order, each placed
/// after every earlier element whose key is not greater than its own.
pub open spec fn stable_sort_by_key(s: Seq<(Seq<char>, Seq<char>)>) -> Seq<(Seq<char>, Seq<char>)>
    decreases s.len(),
{
    if s.len() == 0 {
        s
    } else {
        insert_by_key(stable_sort_by_key(s.drop_last()), s.last())
    }
}

/// The keys of `s` never decrease.
pub open spec fn sorted_by_key(s: Seq<(Seq<char>, Seq<char>)>) -> bool {
    forall|i: int, j: int| 0 <= i < j < s.len() ==> lex_le(#[trigger] s[i].0, #[trigger] s[j].0)
}

/// Inserting at the position found by scanning from the end.
proof fn lemma_insert_at(s: Seq<(Seq<char>, Seq<char>)>, x: (Seq<char>, Seq<char>), p: int)
    requires
        0 <= p <= s.len(),
        p == 0 || lex_le(s[p - 1].0, x.0),
        forall|m: int| p <= m < s.len() ==> !lex_le(#[trigger] s[m].0, x.0),
    ensures
        insert_by_key(s, x) == s.insert(p, x),
    decreases s.len(),
{
    if s.len() == 0 {
        assert(s.insert(p, x) =~= seq![x]);
    } else if lex_le(s.last().0, x.0) {
        assert(p == s.len());
        assert(s.insert(p, x) =~= s.push(x));
    } else {
        lemma_insert_at(s.drop_last(), x, p);
        assert(s.drop_last().insert(p, x).push(s.last()) =~= s.insert(p, x));
    }
}

/// Inserting into a sorted sequence keeps it sorted, and adds exactly `x`.
proof fn lemma_insert_sorted(s: Seq<(Seq<char>, Seq<char>)>, x: (Seq<char>, Seq<char>))
    requires
        sorted_by_key(s),
    ensures
        sorted_by_key(insert_by_key(s, x)),
        insert_by_key(s, x).to_multiset() == s.to_multiset().insert(x),
        insert_by_key(s, x).len() == s.len() + 1,
    decreases s.len(),
{
    broadcast use vstd::seq_lib::group_to_multiset_ensures;

    if s.len() == 0 {
        assert(seq![x] =~= Seq::<(Seq<char>, Seq<char>)>::empty().push(x));
    } else if lex_le(s.last().0, x.0) {
        let r = s.push(x);
        assert forall|i: int, j: int| 0 <= i < j < r.len() implies lex_le(#[trigger] r[i].0, #[trigger] r[j].0) by {
            if j == s.len() {
                lemma_lex_le_total_order(r[i].0, s.last().0, x.0);
            }
        }
    } else {
        let t = s.drop_last();
        assert(sorted_by_key(t));
        lemma_insert_sorted(t, x);
        let it = insert_by_key(t, x);
        let r = it.push(s.last());
        lemma_lex_le_total_order(s.last().0, x.0, x.0);
        assert forall|i: int| 0 <= i < it.len() implies lex_le(#[trigger] it[i].0, s.last().0) by {
            assert(it.to_multiset().count(it[i]) > 0);
            assert(it.contains(it[i]));
            if it[i] == x {
            } else {
                assert(t.to_multiset().insert(x).count(it[i]) > 0);
                assert(t.to_multiset().count(it[i]) > 0);
                assert(t.contains(it[i]));
                let k = choose|k: int| 0 <= k < t.len() && t[k] == it[i];
                assert(s[k] == t[k]);
                assert(lex_le(s[k].0, s[s.len() - 1].0));
            }
        }
        assert forall|i: int, j: int| 0 <= i < j < r.len() implies lex_le(#[trigger] r[i].0, #[trigger] r[j].0) by {
            if j == it.len() {
                assert(r[i] == it[i]);
            } else {
                assert(r[i] == it[i] && r[j] == it[j]);
            }
        }
        assert(s =~= t.push(s.last()));
    }
}

/// The stable sort by key is sorted and holds the same elements.
pub proof fn lemma_stable_sort_sorted(s: Seq<(Seq<char>, Seq<char>)>)
    ensures
        sorted_by_key(stable_sort_by_key(s)),
        stable_sort_by_key(s).to_multiset() == s.to_multiset(),
        stable_sort_by_key(s).len() == s.len(),
    decreases s.len(),
{
    broadcast use vstd::seq_lib::group_to_multiset_ensures;

    if s.len() > 0 {
        lemma_stable_sort_sorted(s.drop_last());
        lemma_insert_sorted(stable_sort_by_key(s.drop_last()), s.last());
        assert(s =~= s.drop_last().push(s.last()));
    }
}

/// Input already in key order is left as it is by the stable sort.
pub proof fn lemma_sorted_input_unchanged(s: Seq<(Seq<char>, Seq<char>)>)
    requires
        sorted_by_key(s),
    ensures
        stable_sort_by_key(s) == s,
    decreases s.len(),
{
    if s.len() > 0 {
        let t = s.drop_last();
        assert(sorted_by_key(t)) by {
            assert forall|i: int, j: int| 0 <= i < j < t.len() implies lex_le(#[trigger] t[i].0, #[trigger] t[j].0) by {
                assert(t[i] == s[i] && t[j] == s[j]);
            }
        }
        lemma_sorted_input_unchanged(t);
        if t.len() > 0 {
            assert(lex_le(s[t.len() - 1].0, s[s.len() - 1].0));
        }
        assert(s =~= t.push(s.last()));
    }
}

/// Sorts strings by their keys, keeping the order of strings with equal keys.
pub fn sort_keyed(v: Vec<Keyed>) -> (r: Vec<Keyed>)
    ensures
        keyed_views(r@) == stable_sort_by_key(keyed_views(v@)),
{
    let ghost orig = keyed_views(v@);
    let n: usize = v.len();
    let mut rest = v;
    let mut out: Vec<Keyed> = Vec::new();
    let mut i: usize = 0;
    assert(orig.take(0) =~= Seq::<(Seq<char>, Seq<char>)>::empty());
    assert(keyed_views(out@) =~= Seq::<(Seq<char>, Seq<char>)>::empty());
    while rest.len() > 0
        invariant
            i <= n,
            orig.len() == n,
            rest@.len() == n - i,
            keyed_views(rest@) =~= orig.skip(i as int),
            keyed_views(out@) == stable_sort_by_key(orig.take(i as int)),
        decreases rest@.len(),
    {
        assert(keyed_views(rest@)[0] == orig[i as int]);
        let ghost before_rest = rest@;
        let x = rest.remove(0);
        let ghost xv = keyed_view(x);
        assert(x == before_rest[0]);
        assert(xv == orig[i as int]);
        assert(rest@ =~= before_rest.skip(1));
        assert forall|k: int| 0 <= k < rest@.len() implies #[trigger] keyed_views(rest@)[k] == orig.skip(i + 1)[k] by {
            assert(rest@[k] == before_rest[k + 1]);
            assert(keyed_views(before_rest)[k + 1] == orig.skip(i as int)[k + 1]);
        }
        assert(keyed_views(rest@) =~= orig.skip(i + 1));
        let mut p = out.len();
        while p > 0 && !lex_le_exec(&out[p - 1].key, &x.key)
            invariant
                p <= out@.len(),
                xv == keyed_view(x),
                forall|m: int| p <= m < out@.len() ==> !lex_le(#[trigger] keyed_views(out@)[m].0, xv.0),
            decreases p,
        {
            p = p - 1;
        }
        proof {
            lemma_insert_at(keyed_views(out@), xv, p as int);
            assert(orig.take(i + 1).drop_last() =~= orig.take(i as int));
        }
        let ghost before = out@;
        out.insert(p, x);
        assert(keyed_views(out@) =~= keyed_views(before).insert(p as int, xv));
        i = i + 1;
    }
    assert(orig.take(i as int) =~= orig);
    out
}

} // verus!
