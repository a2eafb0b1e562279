//! Byte counts per language: a map from language name to bytes, kept as a
//! list of entries in which no name occurs twice.
use vstd::prelude::*;
use crate::text::chars_of;

verus! {

/// Whether `name` is the name of some entry.
pub open spec fn has_name(s: Seq<(Seq<char>, u64)>, name: Seq<char>) -> bool {
    exists|i: int| 0 <= i < s.len() && #[trigger] s[i].0 == name
}

/// No name occurs twice.
pub open spec fn names_distinct(s: Seq<(Seq<char>, u64)>) -> bool {
    forall|i: int, j: int| 0 <= i < j < s.len() ==> #[trigger] s[i].0 != #[trigger] s[j].0
}

/// The index of the entry named `name`, if there is one.
pub open spec fn index_of_name(s: Seq<(Seq<char>, u64)>, name: Seq<char>) -> int
    decreases s.len(),
{
    if s.len() == 0 {
        -1
    } else if s.last().0 == name {
        s.len() - 1
    } else {
        index_of_name(s.drop_last(), name)
    }
}

/// The entries after setting the bytes of `name`: an existing entry of that
/// name is updated in place, otherwise a new entry is appended.
pub open spec fn insert_entry(s: Seq<(Seq<char>, u64)>, name: Seq<char>, bytes: u64) -> Seq<(Seq<char>, u64)> {
    let i = index_of_name(s, name);
    if i >= 0 {
        s.update(i, (name, bytes))
    } else {
        s.push((name, bytes))
    }
}

/// The entries after adding `bytes` to those of `name` (a new entry when there
/// is none).
pub open spec fn add_entry(s: Seq<(Seq<char>, u64)>, name: Seq<char>, bytes: u64) -> Seq<(Seq<char>, u64)> {
    insert_entry(s, name, (bytes_of(s, name) + bytes) as u64)
}

/// The bytes recorded for `name`, 0 when there is no such entry.
pub open spec fn bytes_of(s: Seq<(Seq<char>, u64)>, name: Seq<char>) -> u64 {
    let i = index_of_name(s, name);
    if i >= 0 {
        s[i].1
    } else {
        0
    }
}

/// The sum of all bytes.
pub open spec fn sum_bytes(s: Seq<(Seq<char>, u64)>) -> int
    decreases s.len(),
{
    if s.len() == 0 {
        0
    } else {
        sum_bytes(s.drop_last()) + s.last().1
    }
}

/// `index_of_name` finds the entry of that name, and -1 only when there is none.
pub proof fn lemma_index_of_name(s: Seq<(Seq<char>, u64)>, name: Seq<char>)
    ensures
        -1 <= index_of_name(s, name) < s.len(),
        index_of_name(s, name) >= 0 ==> s[index_of_name(s, name)].0 == name,
        index_of_name(s, name) == -1 <==> !has_name(s, name),
        names_distinct(s) && has_name(s, name) ==> forall|i: int|
            0 <= i < s.len() && #[trigger] s[i].0 == name ==> i == index_of_name(s, name),
    decreases s.len(),
{
    if s.len() > 0 {
        lemma_index_of_name(s.drop_last(), name);
        if s.last().0 != name && has_name(s, name) {
            let i = choose|i: int| 0 <= i < s.len() && #[trigger] s[i].0 == name;
            assert(s.drop_last()[i].0 == name);
        }
        if index_of_name(s, name) == -1 && has_name(s, name) {
            let i = choose|i: int| 0 <= i < s.len() && #[trigger] s[i].0 == name;
            assert(s.drop_last()[i].0 == name);
        }
    }
}

/// The sum over a concatenation is the sum of the sums.
pub proof fn lemma_sum_bytes_add(a: Seq<(Seq<char>, u64)>, b: Seq<(Seq<char>, u64)>)
    ensures
        sum_bytes(a + b) == sum_bytes(a) + sum_bytes(b),
    decreases b.len(),
{
    if b.len() == 0 {
        assert(a + b =~= a);
    } else {
        lemma_sum_bytes_add(a, b.drop_last());
        assert((a + b).drop_last() =~= a + b.drop_last());
    }
}

/// Sums are never negative.
pub proof fn lemma_sum_bytes_nonneg(s: Seq<(Seq<char>, u64)>)
    ensures
        sum_bytes(s) >= 0,
    decreases s.len(),
{
    if s.len() > 0 {
        lemma_sum_bytes_nonneg(s.drop_last());
    }
}

/// Removing one entry takes its bytes off the sum.
pub proof fn lemma_sum_bytes_remove(s: Seq<(Seq<char>, u64)>, k: int)
    requires
        0 <= k < s.len(),
    ensures
        sum_bytes(s) == sum_bytes(s.remove(k)) + s[k].1,
{
    lemma_sum_bytes_add(s.take(k), s.skip(k));
    lemma_sum_bytes_add(s.take(k), s.skip(k + 1));
    assert(s =~= s.take(k) + s.skip(k));
    assert(s.remove(k) =~= s.take(k) + s.skip(k + 1));
    assert(s.skip(k) =~= seq![s[k]] + s.skip(k + 1));
    lemma_sum_bytes_add(seq![s[k]], s.skip(k + 1));
    let one = seq![s[k]];
    assert(one.drop_last() =~= Seq::<(Seq<char>, u64)>::empty());
    assert(one.last() == s[k]);
    assert(sum_bytes(one.drop_last()) == 0);
    assert(sum_bytes(one) == s[k].1);
    assert(sum_bytes(s.skip(k)) == s[k].1 + sum_bytes(s.skip(k + 1)));
}

/// Entries with distinct names, all found in `s` (whose names are distinct),
/// sum to no more than `s`.
pub proof fn lemma_sum_bytes_subset(r: Seq<(Seq<char>, u64)>, s: Seq<(Seq<char>, u64)>)
    requires
        names_distinct(r),
        names_distinct(s),
        forall|i: int| 0 <= i < r.len() ==> s.contains(#[trigger] r[i]),
    ensures
        sum_bytes(r) <= sum_bytes(s),
    decreases r.len(),
{
    if r.len() == 0 {
        lemma_sum_bytes_nonneg(s);
    } else {
        let x = r.last();
        assert(s.contains(r[r.len() - 1]));
        let k = choose|k: int| 0 <= k < s.len() && s[k] == x;
        let s2 = s.remove(k);
        let r2 = r.drop_last();
        assert forall|i: int| 0 <= i < r2.len() implies s2.contains(#[trigger] r2[i]) by {
            assert(r[i] == r2[i]);
            assert(s.contains(r[i]));
            let m = choose|m: int| 0 <= m < s.len() && s[m] == r2[i];
            assert(r2[i].0 != x.0);
            assert(m != k);
            if m < k {
                assert(s2[m] == s[m]);
            } else {
                assert(s2[m - 1] == s[m]);
            }
        }
        assert forall|i: int, j: int| 0 <= i < j < s2.len() implies #[trigger] s2[i].0 != #[trigger] s2[j].0 by {
            let i0 = if i < k { i } else { i + 1 };
            let j0 = if j < k { j } else { j + 1 };
            assert(s2[i] == s[i0] && s2[j] == s[j0]);
        }
        lemma_sum_bytes_subset(r2, s2);
        lemma_sum_bytes_remove(s, k);
    }
}

/// Byte counts per language name (a map from name to bytes). Entries keep the
/// order in which their names were first inserted.
#[derive(Debug)]
pub struct ByteTotals {
    entries: Vec<(String, u64)>,
}

impl View for ByteTotals {
    type V = Seq<(Seq<char>, u64)>;

    closed spec fn view(&self) -> Seq<(Seq<char>, u64)> {
        self.entries@.map_values(|e: (String, u64)| (e.0@, e.1))
    }
}

impl ByteTotals {
    /// No name occurs twice.
    #[verifier::type_invariant]
    pub open spec fn well_formed(self) -> bool {
        names_distinct(self@)
    }

    /// No names at all.
    pub fn new() -> (r: Self)
        ensures
            r@ == Seq::<(Seq<char>, u64)>::empty(),
    {
        let r = ByteTotals { entries: Vec::new() };
        assert(r@ =~= Seq::<(Seq<char>, u64)>::empty());
        r
    }

    /// The number of languages.
    pub fn len(&self) -> (r: usize)
        ensures
            r == self@.len(),
    {
        self.entries.len()
    }

    /// Whether there are no languages.
    pub fn is_empty(&self) -> (r: bool)
        ensures
            r == (self@.len() == 0),
    {
        self.entries.len() == 0
    }

    /// The index of the entry named `name`.
    fn find(&self, name: &[char]) -> (r: Option<usize>)
        ensures
            match r {
                Some(i) => i as int == index_of_name(self@, name@) && i < self@.len(),
                None => index_of_name(self@, name@) == -1,
            },
    {
        proof {
            use_type_invariant(self);
            lemma_index_of_name(self@, name@);
        }
        let mut i: usize = self.entries.len();
        while i > 0
            invariant
                i <= self@.len(),
                self@.len() == self.entries@.len(),
                forall|m: int| i <= m < self@.len() ==> self@[m].0 != name@,
            decreases i,
        {
            let cs = chars_of(self.entries[i - 1].0.as_str());
            assert(cs@ == self@[i - 1].0);
            if chars_eq(&cs, name) {
                proof {
                    use_type_invariant(self);
                    lemma_index_of_name(self@, name@);
                    assert(self@[i - 1].0 == name@);
                    assert(has_name(self@, name@));
                }
                return Some(i - 1);
            }
            i = i - 1;
        }
        assert(!has_name(self@, name@));
        None
    }

    /// Whether some language is named `name`.
    pub fn contains_key(&self, name: &str) -> (r: bool)
        ensures
            r == has_name(self@, name@),
    {
        proof {
            lemma_index_of_name(self@, name@);
        }
        let cs = chars_of(name);
        self.find(&cs).is_some()
    }

    /// The bytes recorded for `name`.
    pub fn get(&self, name: &str) -> (r: Option<u64>)
        ensures
            r == (if has_name(self@, name@) { Some(bytes_of(self@, name@)) } else { None::<u64> }),
    {
        proof {
            lemma_index_of_name(self@, name@);
        }
        let cs = chars_of(name);
        match self.find(&cs) {
            Some(i) => Some(self.entries[i].1),
            None => None,
        }
    }

    /// Sets the bytes of `name`, replacing an earlier value.
    pub fn insert(&mut self, name: String, bytes: u64)
        ensures
            final(self)@ == insert_entry(old(self)@, name@, bytes),
    {
        proof {
            use_type_invariant(&*self);
            lemma_index_of_name(self@, name@);
        }
        let cs = chars_of(name.as_str());
        let found = self.find(&cs);
        let ghost old_view = self@;
        let mut entries: Vec<(String, u64)> = Vec::new();
        std::mem::swap(&mut entries, &mut self.entries);
        assert(entries@.map_values(|e: (String, u64)| (e.0@, e.1)) == old_view);
        match found {
            Some(i) => {
                entries.set(i, (name, bytes));
                assert(entries@.map_values(|e: (String, u64)| (e.0@, e.1)) =~= old_view.update(
                    i as int,
                    (cs@, bytes),
                ));
            },
            None => {
                entries.push((name, bytes));
                assert(entries@.map_values(|e: (String, u64)| (e.0@, e.1)) =~= old_view.push((cs@, bytes)));
            },
        }
        let ghost new_view = entries@.map_values(|e: (String, u64)| (e.0@, e.1));
        assert(names_distinct(new_view)) by {
            assert forall|a: int, b: int| 0 <= a < b < new_view.len() implies #[trigger] new_view[a].0
                != #[trigger] new_view[b].0 by {
                if a < old_view.len() && b < old_view.len() {
                    if found is Some {
                        let i = found->0 as int;
                        if a != i && b != i {
                            assert(new_view[a] == old_view[a] && new_view[b] == old_view[b]);
                        } else if a == i {
                            assert(new_view[b] == old_view[b]);
                            assert(old_view[i].0 == cs@);
                        } else {
                            assert(new_view[a] == old_view[a]);
                            assert(old_view[i].0 == cs@);
                        }
                    } else {
                        assert(new_view[a] == old_view[a] && new_view[b] == old_view[b]);
                    }
                } else {
                    assert(found is None);
                    assert(new_view[a] == old_view[a]);
                    assert(!has_name(old_view, cs@));
                }
            }
        }
        self.entries = entries;
    }

    /// Adds `bytes` to the bytes of `name` (starting from 0 for a new name).
    pub fn add(&mut self, name: String, bytes: u64)
        requires
            bytes_of(old(self)@, name@) + bytes <= u64::MAX,
        ensures
            final(self)@ == add_entry(old(self)@, name@, bytes),
    {
        proof {
            lemma_index_of_name(self@, name@);
        }
        let cur = match self.get(name.as_str()) {
            Some(b) => b,
            None => 0,
        };
        self.insert(name, cur + bytes);
    }

    /// A map holding the given pairs; a later pair replaces an earlier one with
    /// the same name.
    pub fn from_pairs(pairs: Vec<(String, u64)>) -> (r: Self)
        ensures
            r@ == pairs_into(Seq::empty(), pairs@.map_values(|e: (String, u64)| (e.0@, e.1))),
    {
        let ghost pv = pairs@.map_values(|e: (String, u64)| (e.0@, e.1));
        let mut r = ByteTotals::new();
        let mut i: usize = 0;
        assert(pv.take(0) =~= Seq::<(Seq<char>, u64)>::empty());
        while i < pairs.len()
            invariant
                i <= pairs@.len(),
                pv == pairs@.map_values(|e: (String, u64)| (e.0@, e.1)),
                r@ == pairs_into(Seq::empty(), pv.take(i as int)),
            decreases pairs@.len() - i,
        {
            let name = pairs[i].0.clone();
            let bytes = pairs[i].1;
            r.insert(name, bytes);
            assert(pv.take(i + 1).drop_last() =~= pv.take(i as int));
            i = i + 1;
        }
        assert(pv.take(pairs@.len() as int) =~= pv);
        r
    }

    /// The entries, in order, as owned pairs.
    pub fn pairs(&self) -> (r: Vec<(String, u64)>)
        ensures
            r@.map_values(|e: (String, u64)| (e.0@, e.1)) == self@,
    {
        let mut out: Vec<(String, u64)> = Vec::new();
        let mut i: usize = 0;
        while i < self.entries.len()
            invariant
                i <= self.entries@.len(),
                out@.map_values(|e: (String, u64)| (e.0@, e.1)) =~= self@.take(i as int),
            decreases self.entries@.len() - i,
        {
            let name = self.entries[i].0.clone();
            let bytes = self.entries[i].1;
            assert((name@, bytes) == self@[i as int]);
            let ghost before = out@;
            out.push((name, bytes));
            assert(out@.map_values(|e: (String, u64)| (e.0@, e.1)) =~= before.map_values(
                |e: (String, u64)| (e.0@, e.1),
            ).push(self@[i as int]));
            assert(self@.take(i + 1) =~= self@.take(i as int).push(self@[i as int]));
            i = i + 1;
        }
        assert(self@.take(self.entries@.len() as int) =~= self@);
        out
    }

    /// The sum of all bytes, or `None` when it does not fit in a `u64`.
    pub fn total_bytes(&self) -> (r: Option<u64>)
        ensures
            match r {
                Some(t) => t == sum_bytes(self@),
                None => sum_bytes(self@) > u64::MAX,
            },
    {
        let mut total: u64 = 0;
        let mut i: usize = 0;
        while i < self.entries.len()
            invariant
                i <= self.entries@.len(),
                self@.len() == self.entries@.len(),
                total == sum_bytes(self@.take(i as int)),
            decreases self.entries@.len() - i,
        {
            assert(self@.take(i + 1).drop_last() =~= self@.take(i as int));
            let b = self.entries[i].1;
            assert(b == self@[i as int].1);
            if b > u64::MAX - total {
                proof {
                    lemma_sum_bytes_add(self@.take(i + 1), self@.skip(i + 1));
                    assert(self@ =~= self@.take(i + 1) + self@.skip(i + 1));
                    lemma_sum_bytes_nonneg(self@.skip(i + 1));
                }
                return None;
            }
            total = total + b;
            i = i + 1;
        }
        assert(self@.take(i as int) =~= self@);
        Some(total)
    }

    /// A copy of the map.
    pub fn duplicate(&self) -> (r: Self)
        ensures
            r@ == self@,
    {
        proof {
            use_type_invariant(self);
        }
        ByteTotals { entries: self.pairs() }
    }

    /// Builds a map from entries whose names are distinct.
    pub(crate) fn from_distinct(entries: Vec<(String, u64)>) -> (r: Self)
        requires
            names_distinct(entries@.map_values(|e: (String, u64)| (e.0@, e.1))),
        ensures
            r@ == entries@.map_values(|e: (String, u64)| (e.0@, e.1)),
    {
        ByteTotals { entries }
    }
}

/// The entries after inserting each pair in turn.
pub open spec fn pairs_into(start: Seq<(Seq<char>, u64)>, pairs: Seq<(Seq<char>, u64)>) -> Seq<(Seq<char>, u64)>
    decreases pairs.len(),
{
    if pairs.len() == 0 {
        start
    } else {
        insert_entry(pairs_into(start, pairs.drop_last()), pairs.last().0, pairs.last().1)
    }
}

/// Whether two character sequences are equal.
pub fn chars_eq(a: &[char], b: &[char]) -> (r: bool)
    ensures
        r == (a@ == b@),
{
    if a.len() != b.len() {
        return false;
    }
    let mut i: usize = 0;
    while i < a.len()
        invariant
            i <= a@.len() == b@.len(),
            forall|m: int| 0 <= m < i ==> a@[m] == b@[m],
        decreases a@.len() - i,
    {
        if a[i] != b[i] {
            return false;
        }
        i = i + 1;
    }
    assert(a@ =~= b@);
    true
}

/// Setting the bytes of a name and reading them back gives what was set; other
/// names keep their bytes; names stay distinct.
pub proof fn bytes_after_insert(s: Seq<(Seq<char>, u64)>, name: Seq<char>, bytes: u64, other: Seq<char>)
    requires
        names_distinct(s),
    ensures
        has_name(insert_entry(s, name, bytes), name),
        bytes_of(insert_entry(s, name, bytes), name) == bytes,
        other != name ==> has_name(insert_entry(s, name, bytes), other) == has_name(s, other),
        other != name ==> bytes_of(insert_entry(s, name, bytes), other) == bytes_of(s, other),
        names_distinct(insert_entry(s, name, bytes)),
{
    let t = insert_entry(s, name, bytes);
    lemma_index_of_name(s, name);
    lemma_index_of_name(s, other);
    let i = index_of_name(s, name);
    assert(names_distinct(t)) by {
        assert forall|a: int, b: int| 0 <= a < b < t.len() implies #[trigger] t[a].0 != #[trigger] t[b].0 by {
            if i >= 0 {
                if a != i && b != i {
                    assert(t[a] == s[a] && t[b] == s[b]);
                } else if a == i {
                    assert(t[b] == s[b]);
                } else {
                    assert(t[a] == s[a]);
                }
            } else if b == s.len() {
                assert(t[a] == s[a]);
            } else {
                assert(t[a] == s[a] && t[b] == s[b]);
            }
        }
    }
    let k = if i >= 0 { i } else { s.len() as int };
    assert(t[k].0 == name);
    lemma_index_of_name(t, name);
    lemma_index_of_name(t, other);
    if other != name {
        if has_name(s, other) {
            let j = index_of_name(s, other);
            assert(t[j] == s[j]);
        }
        if has_name(t, other) {
            let j = index_of_name(t, other);
            if j < s.len() {
                assert(t[j] == s[j] || j == i);
                assert(s[j].0 == other);
            }
        }
    }
}

} // verus!
