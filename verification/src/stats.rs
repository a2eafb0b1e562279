//! Exclude lists, the exclude cache key, applying excludes to language totals,
//! and the ranking of languages by size.
use vstd::prelude::*;
use crate::text::{
    chars_of, string_of, to_lowercase, trim, trim_spec, unicode_lowercase, split_spec, join_spec,
    join_chars, eq_ignore_ascii_case, eq_ignore_ascii_case_spec,
};
use crate::sort::{Keyed, keyed_view, keyed_views, items_of, stable_sort_by_key, sort_keyed, sorted_by_key, lemma_stable_sort_sorted, lemma_sorted_input_unchanged};
use crate::text::{lex_le, lemma_lex_le_total_order, lemma_join_injective, lemma_split_parts_free, lemma_split_without_sep};
use crate::totals::{ByteTotals, names_distinct, sum_bytes, chars_eq, lemma_sum_bytes_subset, lemma_sum_bytes_add, lemma_sum_bytes_nonneg};
use crate::ranking::{is_top_ranking, strictly_ranked, entry_views, rank_entries, lemma_ranked_names_distinct, top_ranking_is_prefix};

verus! {

/// The character views of a sequence of strings.
pub open spec fn string_views(v: Seq<String>) -> Seq<Seq<char>> {
    v.map_values(|s: String| s@)
}

/// The sequence without its leading spaces and `+` characters.
pub open spec fn strip_leading_marks(s: Seq<char>) -> Seq<char>
    decreases s.len(),
{
    if s.len() > 0 && (s[0] == '+' || s[0] == ' ') {
        strip_leading_marks(s.drop_first())
    } else {
        s
    }
}

/// The number of spaces and `+` at the end of the sequence.
pub open spec fn trailing_marks(s: Seq<char>) -> nat
    decreases s.len(),
{
    if s.len() > 0 && (s.last() == ' ' || s.last() == '+') {
        1 + trailing_marks(s.drop_last())
    } else {
        0
    }
}

/// The spaces and `+` at the end of the sequence all read as `+`.
pub open spec fn trailing_marks_to_plus(s: Seq<char>) -> Seq<char> {
    Seq::new(s.len(), |i: int| if i >= s.len() - trailing_marks(s) { '+' } else { s[i] })
}

/// How one exclude token from a query string is read.
///
/// Query strings decode `+` as space, so `?exclude=C++` arrives as `"C  "`:
/// spaces among the `+` at the end of a name are read as `+`, while spaces inside a name
/// (`Jupyter Notebook`, sent percent-encoded) stay. Leading spaces and `+` are
/// dropped, and a single trailing `+` is dropped when no other `+` remains
/// before it, so the padding of `" Rust "` goes.
pub open spec fn decode_exclude_token_spec(token: Seq<char>) -> Seq<char> {
    let d = trailing_marks_to_plus(strip_leading_marks(token));
    if d.len() > 0 && d.last() == '+' && !d.drop_last().contains('+') {
        d.drop_last()
    } else {
        d
    }
}

/// How a language name is compared with an exclude: trimmed and lowercased.
pub open spec fn normalize_language_name_spec(name: Seq<char>) -> Seq<char> {
    unicode_lowercase(trim_spec(name))
}

/// The decoded parts, without those that decode to nothing.
pub open spec fn decoded_nonempty(parts: Seq<Seq<char>>) -> Seq<Seq<char>>
    decreases parts.len(),
{
    if parts.len() == 0 {
        Seq::empty()
    } else {
        let rest = decoded_nonempty(parts.drop_last());
        let d = decode_exclude_token_spec(parts.last());
        if d.len() > 0 {
            rest.push(d)
        } else {
            rest
        }
    }
}

/// The excludes that one query value names: the value split at `,`, each part
/// decoded, empty results left out.
pub open spec fn parse_excludes_spec(value: Seq<char>) -> Seq<Seq<char>> {
    decoded_nonempty(split_spec(value, ','))
}

/// Normalizes a language name for comparison (case-insensitive): trims it and
/// lowercases it.
fn normalize_language_name(name: &[char]) -> (r: Vec<char>)
    ensures
        r@ == normalize_language_name_spec(name@),
{
    let trimmed = trim(name);
    let s = string_of(&trimmed);
    let lower = to_lowercase(s.as_str());
    chars_of(lower.as_str())
}

/// Decodes one exclude token from the query string (see
/// `decode_exclude_token_spec`).
fn decode_exclude_token(token: &[char]) -> (r: Vec<char>)
    ensures
        r@ == decode_exclude_token_spec(token@),
{
    let n = token.len();
    // Leading spaces and `+`.
    let mut a: usize = 0;
    assert(token@.skip(0) =~= token@);
    while a < n && (token[a] == ' ' || token[a] == '+')
        invariant
            a <= n == token@.len(),
            strip_leading_marks(token@) == strip_leading_marks(token@.skip(a as int)),
        decreases n - a,
    {
        assert(token@.skip(a as int).drop_first() =~= token@.skip(a + 1));
        a = a + 1;
    }
    let ghost s = token@.skip(a as int);
    assert(strip_leading_marks(token@) == s);
    // The spaces and `+` at the end.
    let mut b: usize = n;
    assert(s.take((n - a) as int) =~= s);
    while b > a && (token[b - 1] == ' ' || token[b - 1] == '+')
        invariant
            a <= b <= n == token@.len(),
            s == token@.skip(a as int),
            trailing_marks(s) == (n - b) + trailing_marks(s.take(b - a)),
        decreases b,
    {
        let ghost t = s.take(b - a);
        assert(t.drop_last() =~= s.take(b - a - 1));
        assert(t.last() == token@[b - 1]);
        b = b - 1;
    }
    assert(trailing_marks(s.take(b - a)) == 0) by {
        if b > a {
            assert(s.take(b - a).last() == token@[b - 1]);
        }
    }
    let ghost tp = trailing_marks_to_plus(s);
    let mut d: Vec<char> = Vec::new();
    let mut i: usize = a;
    while i < n
        invariant
            a <= b <= n == token@.len(),
            a <= i <= n,
            s == token@.skip(a as int),
            tp == trailing_marks_to_plus(s),
            trailing_marks(s) == n - b,
            d@ =~= tp.take(i - a),
        decreases n - i,
    {
        let c = if i >= b { '+' } else { token[i] };
        assert(tp[i - a] == c);
        d.push(c);
        assert(tp.take(i + 1 - a) =~= tp.take(i - a).push(c));
        i = i + 1;
    }
    assert(d@ =~= tp);
    let len = d.len();
    if len > 0 && d[len - 1] == '+' {
        let mut k: usize = 0;
        while k < len - 1 && d[k] != '+'
            invariant
                k <= len - 1,
                len == d@.len(),
                forall|m: int| 0 <= m < k ==> d@[m] != '+',
            decreases len - 1 - k,
        {
            k = k + 1;
        }
        if k == len - 1 {
            assert(!d@.drop_last().contains('+'));
            d.pop();
        } else {
            assert(d@.drop_last()[k as int] == '+');
        }
    }
    d
}

/// Splits one query value at `,`, decodes each part and keeps the parts that
/// are not empty. `None` gives no excludes.
pub fn parse_excludes(exclude_param: Option<&str>) -> (r: Vec<String>)
    ensures
        string_views(r@) == match exclude_param {
            None => Seq::<Seq<char>>::empty(),
            Some(v) => parse_excludes_spec(v@),
        },
{
    match exclude_param {
        None => {
            let r: Vec<String> = Vec::new();
            assert(string_views(r@) =~= Seq::<Seq<char>>::empty());
            r
        },
        Some(value) => {
            let v = chars_of(value);
            let n = v.len();
            let mut out: Vec<String> = Vec::new();
            let mut cur: Vec<char> = Vec::new();
            let mut i: usize = 0;
            proof {
                assert(v@.take(0) =~= Seq::<char>::empty());
                assert(string_views(out@) =~= Seq::<Seq<char>>::empty());
            }
            while i < n
                invariant
                    i <= n == v@.len(),
                    v@ == value@,
                    split_spec(v@.take(i as int), ',').len() >= 1,
                    string_views(out@) == decoded_nonempty(split_spec(v@.take(i as int), ',').drop_last()),
                    cur@ == split_spec(v@.take(i as int), ',').last(),
                decreases n - i,
            {
                let c = v[i];
                let ghost pre = split_spec(v@.take(i as int), ',');
                assert(v@.take(i + 1).drop_last() =~= v@.take(i as int));
                assert(v@.take(i + 1).last() == c);
                if c == ',' {
                    let d = decode_exclude_token(&cur);
                    if d.len() > 0 {
                        let ds = string_of(&d);
                        let ghost before = out@;
                        out.push(ds);
                        assert(string_views(out@) =~= string_views(before).push(d@));
                    }
                    assert(split_spec(v@.take(i + 1), ',').drop_last() =~= pre);
                    assert(pre =~= pre.drop_last().push(pre.last()));
                    cur = Vec::new();
                } else {
                    cur.push(c);
                    assert(split_spec(v@.take(i + 1), ',').drop_last() =~= pre.drop_last());
                }
                i = i + 1;
            }
            assert(v@.take(n as int) =~= v@);
            let ghost parts = split_spec(v@, ',');
            assert(parts =~= parts.drop_last().push(parts.last()));
            let d = decode_exclude_token(&cur);
            if d.len() > 0 {
                let ds = string_of(&d);
                let ghost before = out@;
                out.push(ds);
                assert(string_views(out@) =~= string_views(before).push(d@));
            }
            out
        },
    }
}

/// The excludes of all query values, in order.
pub open spec fn flat_excludes(params: Seq<Seq<char>>) -> Seq<Seq<char>>
    decreases params.len(),
{
    if params.len() == 0 {
        Seq::empty()
    } else {
        flat_excludes(params.drop_last()) + parse_excludes_spec(params.last())
    }
}

/// Each exclude keyed by its Unicode lowercase form.
pub open spec fn lowercase_keyed(s: Seq<Seq<char>>) -> Seq<(Seq<char>, Seq<char>)> {
    s.map_values(|e: Seq<char>| (unicode_lowercase(e), e))
}

/// All but the first of consecutive entries that are equal ignoring ASCII case
/// removed (`Vec::dedup_by` with `eq_ignore_ascii_case`): an entry is kept when
/// it differs, ignoring ASCII case, from the last entry kept before it.
pub open spec fn dedup_ignore_ascii_case(s: Seq<Seq<char>>) -> Seq<Seq<char>>
    decreases s.len(),
{
    if s.len() == 0 {
        s
    } else {
        let rest = dedup_ignore_ascii_case(s.drop_last());
        if rest.len() > 0 && eq_ignore_ascii_case_spec(s.last(), rest.last()) {
            rest
        } else {
            rest.push(s.last())
        }
    }
}

/// The merged exclude list of several query values: all excludes, stably
/// sorted by their Unicode lowercase form, then consecutive entries that are
/// equal ignoring ASCII case reduced to the first.
pub open spec fn parse_excludes_from_params_spec(params: Seq<Seq<char>>) -> Seq<Seq<char>> {
    dedup_ignore_ascii_case(items_of(stable_sort_by_key(lowercase_keyed(flat_excludes(params)))))
}

/// Merges exclude values from one or more query parameters.
///
/// Supports both comma-separated lists and repeated params:
/// `?exclude=Python,TypeScript` or `?exclude=Python&exclude=TypeScript`.
/// The result is sorted by the lowercase form of each name, and names that
/// differ only in ASCII case are kept once.
pub fn parse_excludes_from_params(params: &[String]) -> (r: Vec<String>)
    ensures
        string_views(r@) == parse_excludes_from_params_spec(string_views(params@)),
{
    let ghost pv = string_views(params@);
    let mut keyed: Vec<Keyed> = Vec::new();
    let mut i: usize = 0;
    assert(pv.take(0) =~= Seq::<Seq<char>>::empty());
    assert(keyed_views(keyed@) =~= lowercase_keyed(flat_excludes(pv.take(0))));
    while i < params.len()
        invariant
            i <= params@.len(),
            pv == string_views(params@),
            keyed_views(keyed@) == lowercase_keyed(flat_excludes(pv.take(i as int))),
        decreases params@.len() - i,
    {
        let parsed = parse_excludes(Some(params[i].as_str()));
        let ghost start = keyed_views(keyed@);
        let ghost pe = parse_excludes_spec(pv[i as int]);
        assert(string_views(parsed@) == pe);
        let mut t: usize = 0;
        while t < parsed.len()
            invariant
                t <= parsed@.len(),
                string_views(parsed@) == pe,
                keyed_views(keyed@) == start + lowercase_keyed(pe.take(t as int)),
            decreases parsed@.len() - t,
        {
            let item = parsed[t].clone();
            let key = chars_of(to_lowercase(item.as_str()).as_str());
            let ghost before = keyed@;
            let k = Keyed { key, item };
            keyed.push(k);
            assert(pe[t as int] == parsed@[t as int]@);
            assert(keyed_views(keyed@) =~= keyed_views(before).push(keyed_view(k)));
            assert(lowercase_keyed(pe.take(t + 1)) =~= lowercase_keyed(pe.take(t as int)).push(keyed_view(k)));
            t = t + 1;
        }
        assert(pe.take(t as int) =~= pe);
        assert(pv.take(i + 1).drop_last() =~= pv.take(i as int));
        assert(lowercase_keyed(flat_excludes(pv.take(i + 1))) =~= start + lowercase_keyed(pe));
        i = i + 1;
    }
    assert(pv.take(params@.len() as int) =~= pv);
    let sorted = sort_keyed(keyed);
    let ghost sv = items_of(keyed_views(sorted@));
    let mut out: Vec<String> = Vec::new();
    let mut last: Vec<char> = Vec::new();
    let mut j: usize = 0;
    assert(sv.take(0) =~= Seq::<Seq<char>>::empty());
    assert(string_views(out@) =~= Seq::<Seq<char>>::empty());
    while j < sorted.len()
        invariant
            j <= sorted@.len(),
            sv == items_of(keyed_views(sorted@)),
            string_views(out@) == dedup_ignore_ascii_case(sv.take(j as int)),
            out@.len() > 0 ==> last@ == out@.last()@,
        decreases sorted@.len() - j,
    {
        let item = sorted[j].item.clone();
        let cs = chars_of(item.as_str());
        assert(sv[j as int] == item@);
        assert(sv.take(j + 1).drop_last() =~= sv.take(j as int));
        let ghost before = out@;
        if out.len() == 0 || !eq_ignore_ascii_case(&cs, &last) {
            out.push(item);
            assert(string_views(out@) =~= string_views(before).push(cs@));
            last = cs;
        }
        j = j + 1;
    }
    assert(sv.take(sorted@.len() as int) =~= sv);
    out
}

/// The normalised form of each exclude that does not normalise to nothing.
pub open spec fn normalized_excludes(ex: Seq<Seq<char>>) -> Seq<Seq<char>>
    decreases ex.len(),
{
    if ex.len() == 0 {
        Seq::empty()
    } else {
        let rest = normalized_excludes(ex.drop_last());
        let n = normalize_language_name_spec(decode_exclude_token_spec(ex.last()));
        if n.len() > 0 {
            rest.push(n)
        } else {
            rest
        }
    }
}

/// Each decoded and normalised exclude, the empty ones left out.
fn normalized_exclude_list(excludes: &[String]) -> (r: Vec<Vec<char>>)
    ensures
        r@.map_values(|v: Vec<char>| v@) == normalized_excludes(string_views(excludes@)),
{
    let ghost ev = string_views(excludes@);
    let mut out: Vec<Vec<char>> = Vec::new();
    let mut i: usize = 0;
    assert(ev.take(0) =~= Seq::<Seq<char>>::empty());
    assert(out@.map_values(|v: Vec<char>| v@) =~= Seq::<Seq<char>>::empty());
    while i < excludes.len()
        invariant
            i <= excludes@.len(),
            ev == string_views(excludes@),
            out@.map_values(|v: Vec<char>| v@) == normalized_excludes(ev.take(i as int)),
        decreases excludes@.len() - i,
    {
        let decoded = decode_exclude_token(&chars_of(excludes[i].as_str()));
        let name = normalize_language_name(&decoded);
        assert(ev.take(i + 1).drop_last() =~= ev.take(i as int));
        assert(ev.take(i + 1).last() == excludes@[i as int]@);
        let ghost before = out@;
        if name.len() > 0 {
            let ghost nv = name@;
            out.push(name);
            assert(out@.map_values(|v: Vec<char>| v@) =~= before.map_values(|v: Vec<char>| v@).push(nv));
        }
        i = i + 1;
    }
    assert(ev.take(excludes@.len() as int) =~= ev);
    out
}

/// Each name keyed by itself.
pub open spec fn self_keyed(s: Seq<Seq<char>>) -> Seq<(Seq<char>, Seq<char>)> {
    s.map_values(|e: Seq<char>| (e, e))
}

/// The cache key of an exclude list: the normalised names, sorted and joined
/// with `,`.
pub open spec fn exclude_cache_key_spec(excludes: Seq<Seq<char>>) -> Seq<char> {
    join_spec(items_of(stable_sort_by_key(self_keyed(normalized_excludes(excludes)))), ',')
}

/// The key under which a chart for this exclude list is cached: each exclude
/// decoded and normalised (trimmed, lowercased), empty ones left out, the rest
/// sorted and joined with `,`.
pub fn exclude_cache_key(excludes: &[String]) -> (r: String)
    ensures
        r@ == exclude_cache_key_spec(string_views(excludes@)),
{
    let names = normalized_exclude_list(excludes);
    let ghost nv = names@.map_values(|v: Vec<char>| v@);
    let mut keyed: Vec<Keyed> = Vec::new();
    let mut i: usize = 0;
    assert(keyed_views(keyed@) =~= self_keyed(nv.take(0)));
    while i < names.len()
        invariant
            i <= names@.len(),
            nv == names@.map_values(|v: Vec<char>| v@),
            keyed_views(keyed@) == self_keyed(nv.take(i as int)),
        decreases names@.len() - i,
    {
        let key = names[i].clone();
        let item = string_of(&names[i]);
        let ghost before = keyed@;
        let k = Keyed { key, item };
        keyed.push(k);
        assert(keyed_views(keyed@) =~= keyed_views(before).push(keyed_view(k)));
        assert(self_keyed(nv.take(i + 1)) =~= self_keyed(nv.take(i as int)).push(keyed_view(k)));
        i = i + 1;
    }
    assert(nv.take(names@.len() as int) =~= nv);
    let sorted = sort_keyed(keyed);
    let ghost sv = items_of(keyed_views(sorted@));
    let mut parts: Vec<Vec<char>> = Vec::new();
    let mut j: usize = 0;
    while j < sorted.len()
        invariant
            j <= sorted@.len(),
            sv == items_of(keyed_views(sorted@)),
            parts@.map_values(|v: Vec<char>| v@) =~= sv.take(j as int),
        decreases sorted@.len() - j,
    {
        let cs = chars_of(sorted[j].item.as_str());
        assert(sv[j as int] == cs@);
        let ghost before = parts@;
        parts.push(cs);
        assert(parts@.map_values(|v: Vec<char>| v@) =~= before.map_values(|v: Vec<char>| v@).push(sv[j as int]));
        assert(sv.take(j + 1) =~= sv.take(j as int).push(sv[j as int]));
        j = j + 1;
    }
    assert(sv.take(sorted@.len() as int) =~= sv);
    let joined = join_chars(&parts, ',');
    string_of(&joined)
}

/// Why languages cannot be charted.
#[derive(Debug, Clone, Copy, PartialEq, Eq, Structural)]
pub enum StatsError {
    /// There are no languages at all.
    NoLanguageData,
    /// The excludes removed every language.
    NoLanguagesRemain,
}

impl StatsError {
    /// The message the error is reported with.
    pub fn message(&self) -> (r: &'static str)
        ensures
            r@ == match self {
                StatsError::NoLanguageData => "no language data to chart"@,
                StatsError::NoLanguagesRemain => "no languages remain after applying excludes"@,
            },
    {
        match self {
            StatsError::NoLanguageData => "no language data to chart",
            StatsError::NoLanguagesRemain => "no languages remain after applying excludes",
        }
    }
}

/// A language whose normalised name is among the normalised excludes.
pub open spec fn is_excluded(norm: Seq<Seq<char>>, name: Seq<char>) -> bool {
    norm.contains(normalize_language_name_spec(name))
}

/// The entries that no exclude names, in their order.
pub open spec fn remaining_after(s: Seq<(Seq<char>, u64)>, norm: Seq<Seq<char>>) -> Seq<(Seq<char>, u64)>
    decreases s.len(),
{
    if s.len() == 0 {
        s
    } else {
        let rest = remaining_after(s.drop_last(), norm);
        if is_excluded(norm, s.last().0) {
            rest
        } else {
            rest.push(s.last())
        }
    }
}

/// The remaining entries are entries of `s`, their names stay distinct, and
/// with no excludes nothing is removed.
pub proof fn lemma_remaining_after(s: Seq<(Seq<char>, u64)>, norm: Seq<Seq<char>>)
    ensures
        forall|i: int| 0 <= i < remaining_after(s, norm).len() ==> s.contains(#[trigger] remaining_after(s, norm)[i]),
        names_distinct(s) ==> names_distinct(remaining_after(s, norm)),
        norm.len() == 0 ==> remaining_after(s, norm) == s,
    decreases s.len(),
{
    if s.len() > 0 {
        let t = s.drop_last();
        lemma_remaining_after(t, norm);
        let r = remaining_after(s, norm);
        let rt = remaining_after(t, norm);
        assert forall|i: int| 0 <= i < r.len() implies s.contains(#[trigger] r[i]) by {
            if i < rt.len() {
                assert(r[i] == rt[i]);
                assert(t.contains(rt[i]));
                let k = choose|k: int| 0 <= k < t.len() && t[k] == rt[i];
                assert(s[k] == t[k]);
            } else {
                assert(r[i] == s[s.len() - 1]);
            }
        }
        if names_distinct(s) {
            assert(names_distinct(t));
            assert forall|i: int, j: int| 0 <= i < j < r.len() implies #[trigger] r[i].0 != #[trigger] r[j].0 by {
                if j < rt.len() {
                    assert(r[i] == rt[i] && r[j] == rt[j]);
                } else {
                    assert(r[i] == rt[i]);
                    assert(t.contains(rt[i]));
                    let k = choose|k: int| 0 <= k < t.len() && t[k] == rt[i];
                    assert(s[k] == t[k]);
                    assert(r[j] == s[s.len() - 1]);
                }
            }
        }
        if norm.len() == 0 {
            assert(!is_excluded(norm, s.last().0));
            assert(s =~= t.push(s.last()));
        }
    }
}

/// Whether `name` is one of `list`.
fn contains_chars(list: &Vec<Vec<char>>, name: &[char]) -> (r: bool)
    ensures
        r == list@.map_values(|v: Vec<char>| v@).contains(name@),
{
    let ghost lv = list@.map_values(|v: Vec<char>| v@);
    let mut i: usize = 0;
    while i < list.len()
        invariant
            i <= list@.len(),
            lv == list@.map_values(|v: Vec<char>| v@),
            forall|m: int| 0 <= m < i ==> lv[m] != name@,
        decreases list@.len() - i,
    {
        if chars_eq(&list[i], name) {
            assert(lv[i as int] == name@);
            return true;
        }
        i = i + 1;
    }
    false
}

/// Removes the languages that an exclude names: both sides are compared after
/// trimming and lowercasing, and excludes are decoded first. With no (non-empty)
/// excludes the totals come back unchanged; when excludes remove every
/// language, the error is `NoLanguagesRemain`.
pub fn apply_excludes(totals: ByteTotals, excludes: &[String]) -> (r: Result<ByteTotals, StatsError>)
    ensures
        match r {
            Ok(t) => t@ == remaining_after(totals@, normalized_excludes(string_views(excludes@))),
            Err(e) => e == StatsError::NoLanguagesRemain,
        },
        r is Err <==> (normalized_excludes(string_views(excludes@)).len() > 0 && remaining_after(
            totals@,
            normalized_excludes(string_views(excludes@)),
        ).len() == 0),
{
    let norm = normalized_exclude_list(excludes);
    let ghost nv = norm@.map_values(|v: Vec<char>| v@);
    proof {
        use_type_invariant(&totals);
        lemma_remaining_after(totals@, nv);
    }
    if norm.len() == 0 {
        return Ok(totals);
    }
    let pairs = totals.pairs();
    let ghost pv = entry_views(pairs@);
    assert(pv == totals@);
    let mut kept: Vec<(String, u64)> = Vec::new();
    let mut i: usize = 0;
    assert(entry_views(kept@) =~= remaining_after(pv.take(0), nv));
    while i < pairs.len()
        invariant
            i <= pairs@.len(),
            pv == entry_views(pairs@),
            nv == norm@.map_values(|v: Vec<char>| v@),
            entry_views(kept@) == remaining_after(pv.take(i as int), nv),
        decreases pairs@.len() - i,
    {
        let name = normalize_language_name(&chars_of(pairs[i].0.as_str()));
        assert(pv.take(i + 1).drop_last() =~= pv.take(i as int));
        assert(pv.take(i + 1).last() == pv[i as int]);
        if !contains_chars(&norm, &name) {
            let e = (pairs[i].0.clone(), pairs[i].1);
            let ghost before = kept@;
            kept.push(e);
            assert(entry_views(kept@) =~= entry_views(before).push(pv[i as int]));
        }
        i = i + 1;
    }
    assert(pv.take(pairs@.len() as int) =~= pv);
    if kept.len() == 0 {
        return Err(StatsError::NoLanguagesRemain);
    }
    Ok(ByteTotals::from_distinct(kept))
}

/// One charted language: its name, its bytes, and the bytes of all charted
/// languages together, against which its share is taken.
#[derive(Clone, Debug)]
pub struct LanguageStat {
    pub name: String,
    pub bytes: u64,
    pub total_bytes: u64,
}

/// The names and bytes of charted languages.
pub open spec fn stat_views(s: Seq<LanguageStat>) -> Seq<(Seq<char>, u64)> {
    s.map_values(|st: LanguageStat| (st.name@, st.bytes))
}

/// The first `k` entries of a chart-ordered list, with their total.
fn stats_of_prefix(ranked: &Vec<(String, u64)>, k: usize) -> (r: Vec<LanguageStat>)
    requires
        k <= ranked@.len(),
        sum_bytes(entry_views(ranked@).take(k as int)) <= u64::MAX,
    ensures
        stat_views(r@) == entry_views(ranked@).take(k as int),
        forall|i: int| 0 <= i < r@.len() ==> #[trigger] r@[i].total_bytes == sum_bytes(stat_views(r@)),
{
    let ghost top = entry_views(ranked@).take(k as int);
    let mut total: u64 = 0;
    let mut i: usize = 0;
    while i < k
        invariant
            i <= k <= ranked@.len(),
            top == entry_views(ranked@).take(k as int),
            sum_bytes(top) <= u64::MAX,
            total == sum_bytes(top.take(i as int)),
        decreases k - i,
    {
        proof {
            lemma_sum_bytes_add(top.take(i + 1), top.skip(i + 1));
            assert(top =~= top.take(i + 1) + top.skip(i + 1));
            lemma_sum_bytes_nonneg(top.skip(i + 1));
            assert(top.take(i + 1).drop_last() =~= top.take(i as int));
        }
        total = total + ranked[i].1;
        i = i + 1;
    }
    assert(top.take(k as int) =~= top);
    let mut out: Vec<LanguageStat> = Vec::new();
    let mut j: usize = 0;
    while j < k
        invariant
            j <= k <= ranked@.len(),
            top == entry_views(ranked@).take(k as int),
            total == sum_bytes(top),
            stat_views(out@) =~= top.take(j as int),
            forall|m: int| 0 <= m < out@.len() ==> #[trigger] out@[m].total_bytes == total,
        decreases k - j,
    {
        let st = LanguageStat { name: ranked[j].0.clone(), bytes: ranked[j].1, total_bytes: total };
        let ghost before = out@;
        out.push(st);
        assert(stat_views(out@) =~= stat_views(before).push(top[j as int]));
        j = j + 1;
    }
    assert(stat_views(out@) =~= top);
    out
}

/// All languages in chart order (more bytes first, ties by name), each with the
/// total of all bytes. The caller makes sure that total fits in a `u64`
/// (see `ByteTotals::total_bytes`).
pub fn language_stats_from_map(totals: &ByteTotals) -> (r: Vec<LanguageStat>)
    requires
        sum_bytes(totals@) <= u64::MAX,
    ensures
        is_top_ranking(totals@, stat_views(r@), totals@.len()),
        forall|i: int| 0 <= i < r@.len() ==> #[trigger] r@[i].total_bytes == sum_bytes(totals@),
{
    proof {
        use_type_invariant(totals);
    }
    let pairs = totals.pairs();
    let ranked = rank_entries(&pairs);
    let ghost rv = entry_views(ranked@);
    proof {
        assert(rv.take(ranked@.len() as int) =~= rv);
        // The ranking holds every entry once, so its sum is the sum of all.
        lemma_ranked_names_distinct(totals@, rv);
        lemma_sum_bytes_subset(rv, totals@);
        assert forall|i: int| 0 <= i < totals@.len() implies rv.contains(#[trigger] totals@[i]) by {
            assert(entry_views(pairs@)[i] == totals@[i]);
            assert(rv.contains(entry_views(pairs@)[i]));
        }
        lemma_sum_bytes_subset(totals@, rv);
    }
    stats_of_prefix(&ranked, ranked.len())
}

/// The six languages charted from `all` sum to no more than `u64::MAX`.
pub open spec fn top_six_sum_fits(all: Seq<(Seq<char>, u64)>) -> bool {
    forall|top: Seq<(Seq<char>, u64)>| #[trigger] is_top_ranking(all, top, 6) ==> sum_bytes(top) <= u64::MAX
}

/// The first `min(6, n)` entries of a ranking of all `n` entries are the six
/// charted, and they are the only six that can be.
proof fn lemma_ranked_prefix_is_top_six(all: Seq<(Seq<char>, u64)>, rv: Seq<(Seq<char>, u64)>, k: int)
    requires
        is_top_ranking(all, rv, all.len()),
        k == if rv.len() < 6 { rv.len() as int } else { 6 },
    ensures
        is_top_ranking(all, rv.take(k), 6),
        forall|top: Seq<(Seq<char>, u64)>| #[trigger] is_top_ranking(all, top, 6) ==> top == rv.take(k),
{
    let top = rv.take(k);
    assert forall|i: int, j: int| 0 <= i < j < top.len() implies crate::ranking::ranks_before(#[trigger] top[i], #[trigger] top[j]) by {
        assert(top[i] == rv[i] && top[j] == rv[j]);
    }
    assert forall|i: int| 0 <= i < top.len() implies all.contains(#[trigger] top[i]) by {
        assert(top[i] == rv[i]);
    }
    assert forall|e: (Seq<char>, u64)| all.contains(e) && !top.contains(e) implies forall|i: int|
        0 <= i < top.len() ==> crate::ranking::ranks_before(#[trigger] top[i], e) by {
        if rv.contains(e) {
            let t = choose|t: int| 0 <= t < rv.len() && rv[t] == e;
            if t < k {
                assert(top[t] == e);
            }
            assert forall|i: int| 0 <= i < top.len() implies crate::ranking::ranks_before(#[trigger] top[i], e) by {
                assert(top[i] == rv[i]);
            }
        }
    }
    assert forall|t: Seq<(Seq<char>, u64)>| #[trigger] is_top_ranking(all, t, 6) implies t == rv.take(k) by {
        top_ranking_is_prefix(all, top, 6, t, 6);
        assert(t =~= top);
    }
}

/// Whether the six languages charted from these totals sum to no more than
/// `u64::MAX`, as `aggregate_top_six` needs.
pub fn top_six_fits(totals: &ByteTotals) -> (r: bool)
    ensures
        r == top_six_sum_fits(totals@),
{
    proof {
        use_type_invariant(totals);
    }
    let pairs = totals.pairs();
    let ranked = rank_entries(&pairs);
    let ghost rv = entry_views(ranked@);
    let k: usize = if ranked.len() < 6 { ranked.len() } else { 6 };
    proof {
        assert(entry_views(pairs@) == totals@);
        lemma_ranked_prefix_is_top_six(totals@, rv, k as int);
    }
    let ghost top = rv.take(k as int);
    let mut total: u64 = 0;
    let mut i: usize = 0;
    while i < k
        invariant
            i <= k <= ranked@.len(),
            rv == entry_views(ranked@),
            top == rv.take(k as int),
            is_top_ranking(totals@, top, 6),
            total == sum_bytes(top.take(i as int)),
        decreases k - i,
    {
        proof {
            lemma_sum_bytes_add(top.take(i + 1), top.skip(i + 1));
            assert(top =~= top.take(i + 1) + top.skip(i + 1));
            lemma_sum_bytes_nonneg(top.skip(i + 1));
            assert(top.take(i + 1).drop_last() =~= top.take(i as int));
            assert(top[i as int] == rv[i as int]);
        }
        if ranked[i].1 > u64::MAX - total {
            return false;
        }
        total = total + ranked[i].1;
        i = i + 1;
    }
    assert(top.take(k as int) =~= top);
    true
}

/// The six languages with the most bytes (ties by name), in chart order, each
/// with the total of those six. With no languages the error is `NoLanguageData`.
/// The caller makes sure the six sum to no more than `u64::MAX` (see
/// `top_six_fits`).
pub fn aggregate_top_six(totals: ByteTotals) -> (r: Result<Vec<LanguageStat>, StatsError>)
    requires
        top_six_sum_fits(totals@),
    ensures
        r is Err <==> totals@.len() == 0,
        match r {
            Ok(v) => {
                &&& is_top_ranking(totals@, stat_views(v@), 6)
                &&& forall|i: int| 0 <= i < v@.len() ==> #[trigger] v@[i].total_bytes == sum_bytes(stat_views(v@))
            },
            Err(e) => e == StatsError::NoLanguageData,
        },
{
    proof {
        use_type_invariant(&totals);
    }
    if totals.is_empty() {
        return Err(StatsError::NoLanguageData);
    }
    let pairs = totals.pairs();
    let ranked = rank_entries(&pairs);
    let k: usize = if ranked.len() < 6 { ranked.len() } else { 6 };
    proof {
        assert(entry_views(pairs@) == totals@);
        lemma_ranked_prefix_is_top_six(totals@, entry_views(ranked@), k as int);
    }
    Ok(stats_of_prefix(&ranked, k))
}

/// One exclude, decoded and normalised.
pub open spec fn normalize_exclude(x: Seq<char>) -> Seq<char> {
    normalize_language_name_spec(decode_exclude_token_spec(x))
}

/// How many excludes of `s` normalise to the non-empty name `y`.
pub open spec fn count_normalizing_to(s: Seq<Seq<char>>, y: Seq<char>) -> nat
    decreases s.len(),
{
    if s.len() == 0 {
        0
    } else {
        count_normalizing_to(s.drop_last(), y) + if normalize_exclude(s.last()) == y && y.len() > 0 {
            1nat
        } else {
            0nat
        }
    }
}

proof fn lemma_count_normalizing_add(a: Seq<Seq<char>>, b: Seq<Seq<char>>, y: Seq<char>)
    ensures
        count_normalizing_to(a + b, y) == count_normalizing_to(a, y) + count_normalizing_to(b, y),
    decreases b.len(),
{
    if b.len() == 0 {
        assert(a + b =~= a);
    } else {
        lemma_count_normalizing_add(a, b.drop_last(), y);
        assert((a + b).drop_last() =~= a + b.drop_last());
    }
}

proof fn lemma_count_normalizing_remove(s: Seq<Seq<char>>, k: int, y: Seq<char>)
    requires
        0 <= k < s.len(),
    ensures
        count_normalizing_to(s, y) == count_normalizing_to(s.remove(k), y) + if normalize_exclude(s[k]) == y
            && y.len() > 0 {
            1nat
        } else {
            0nat
        },
{
    let one = seq![s[k]];
    assert(s =~= s.take(k) + (one + s.skip(k + 1)));
    assert(s.remove(k) =~= s.take(k) + s.skip(k + 1));
    lemma_count_normalizing_add(s.take(k), one + s.skip(k + 1), y);
    lemma_count_normalizing_add(one, s.skip(k + 1), y);
    lemma_count_normalizing_add(s.take(k), s.skip(k + 1), y);
    assert(one.drop_last() =~= Seq::<Seq<char>>::empty());
    assert(one.last() == s[k]);
    assert(count_normalizing_to(one.drop_last(), y) == 0);
}

/// The count depends only on the multiset of excludes.
proof fn lemma_count_normalizing_perm(a: Seq<Seq<char>>, b: Seq<Seq<char>>, y: Seq<char>)
    requires
        a.to_multiset() == b.to_multiset(),
    ensures
        count_normalizing_to(a, y) == count_normalizing_to(b, y),
    decreases a.len(),
{
    broadcast use vstd::seq_lib::group_to_multiset_ensures;

    if a.len() == 0 {
        assert(b.to_multiset().len() == 0);
        assert(b.len() == 0);
    } else {
        let x = a.last();
        let a2 = a.drop_last();
        assert(a =~= a2.push(x));
        assert(a.to_multiset().count(x) > 0);
        assert(b.contains(x));
        let k = choose|k: int| 0 <= k < b.len() && b[k] == x;
        let b2 = b.remove(k);
        assert(a2.to_multiset() =~= b2.to_multiset()) by {
            assert(a2.to_multiset().insert(x) =~= b.to_multiset());
            assert(b2.to_multiset() =~= b.to_multiset().remove(x));
            broadcast use vstd::multiset::group_multiset_axioms;

        }
        lemma_count_normalizing_perm(a2, b2, y);
        lemma_count_normalizing_remove(b, k, y);
    }
}

/// The multiplicity of a name among the normalised excludes is the count of
/// excludes that normalise to it.
proof fn lemma_normalized_count(s: Seq<Seq<char>>, y: Seq<char>)
    ensures
        normalized_excludes(s).to_multiset().count(y) == count_normalizing_to(s, y),
    decreases s.len(),
{
    broadcast use vstd::seq_lib::group_to_multiset_ensures;
    broadcast use vstd::multiset::group_multiset_axioms;

    if s.len() == 0 {
        assert(normalized_excludes(s) =~= Seq::<Seq<char>>::empty());
    } else {
        lemma_normalized_count(s.drop_last(), y);
        let rest = normalized_excludes(s.drop_last());
        let n = normalize_exclude(s.last());
        if n.len() > 0 {
            assert(normalized_excludes(s) == rest.push(n));
        }
    }
}

/// A name keyed by itself occurs as often as the name.
proof fn lemma_self_keyed_count(s: Seq<Seq<char>>, p: (Seq<char>, Seq<char>))
    ensures
        self_keyed(s).to_multiset().count(p) == if p.0 == p.1 {
            s.to_multiset().count(p.0)
        } else {
            0
        },
    decreases s.len(),
{
    broadcast use vstd::seq_lib::group_to_multiset_ensures;
    broadcast use vstd::multiset::group_multiset_axioms;

    if s.len() == 0 {
        assert(self_keyed(s) =~= Seq::<(Seq<char>, Seq<char>)>::empty());
    } else {
        lemma_self_keyed_count(s.drop_last(), p);
        assert(s =~= s.drop_last().push(s.last()));
        assert(self_keyed(s) =~= self_keyed(s.drop_last()).push((s.last(), s.last())));
    }
}

/// Two sorted sequences of names keyed by themselves that hold the same
/// elements are equal.
proof fn lemma_sorted_same_elements_equal(a: Seq<(Seq<char>, Seq<char>)>, b: Seq<(Seq<char>, Seq<char>)>)
    requires
        sorted_by_key(a),
        sorted_by_key(b),
        a.to_multiset() == b.to_multiset(),
        forall|i: int| 0 <= i < a.len() ==> (#[trigger] a[i]).0 == a[i].1,
        forall|i: int| 0 <= i < b.len() ==> (#[trigger] b[i]).0 == b[i].1,
    ensures
        a == b,
    decreases a.len(),
{
    broadcast use vstd::seq_lib::group_to_multiset_ensures;

    a.to_multiset_ensures();
    b.to_multiset_ensures();
    assert(a.len() == b.len());
    if a.len() > 0 {
        assert(a.to_multiset().count(a[0]) > 0);
        assert(b.contains(a[0]));
        let j = choose|j: int| 0 <= j < b.len() && b[j] == a[0];
        assert(b.to_multiset().count(b[0]) > 0);
        assert(a.contains(b[0]));
        let i = choose|i: int| 0 <= i < a.len() && a[i] == b[0];
        lemma_lex_le_total_order(a[0].0, b[0].0, a[0].0);
        if j > 0 {
            assert(lex_le(b[0].0, b[j].0));
        }
        if i > 0 {
            assert(lex_le(a[0].0, a[i].0));
        }
        assert(a[0].0 == b[0].0);
        assert(a[0] == b[0]);
        let a2 = a.remove(0);
        let b2 = b.remove(0);
        assert(a2.to_multiset() =~= b2.to_multiset());
        assert(sorted_by_key(a2)) by {
            assert forall|p: int, q: int| 0 <= p < q < a2.len() implies lex_le(#[trigger] a2[p].0, #[trigger] a2[q].0) by {
                assert(a2[p] == a[p + 1] && a2[q] == a[q + 1]);
            }
        }
        assert(sorted_by_key(b2)) by {
            assert forall|p: int, q: int| 0 <= p < q < b2.len() implies lex_le(#[trigger] b2[p].0, #[trigger] b2[q].0) by {
                assert(b2[p] == b[p + 1] && b2[q] == b[q + 1]);
            }
        }
        assert forall|p: int| 0 <= p < a2.len() implies (#[trigger] a2[p]).0 == a2[p].1 by {
            assert(a2[p] == a[p + 1]);
        }
        assert forall|p: int| 0 <= p < b2.len() implies (#[trigger] b2[p]).0 == b2[p].1 by {
            assert(b2[p] == b[p + 1]);
        }
        lemma_sorted_same_elements_equal(a2, b2);
        assert(a =~= seq![a[0]] + a2);
        assert(b =~= seq![b[0]] + b2);
    } else {
        assert(a =~= b);
    }
}

/// Every element of a sequence keyed by itself is keyed by itself.
proof fn lemma_self_keyed_sorted_elements(s: Seq<Seq<char>>)
    ensures
        forall|i: int| 0 <= i < stable_sort_by_key(self_keyed(s)).len() ==> (#[trigger] stable_sort_by_key(
            self_keyed(s),
        )[i]).0 == stable_sort_by_key(self_keyed(s))[i].1,
{
    broadcast use vstd::seq_lib::group_to_multiset_ensures;

    let k = self_keyed(s);
    let srt = stable_sort_by_key(k);
    lemma_stable_sort_sorted(k);
    assert forall|i: int| 0 <= i < srt.len() implies (#[trigger] srt[i]).0 == srt[i].1 by {
        assert(srt.to_multiset().count(srt[i]) > 0);
        assert(k.contains(srt[i]));
    }
}

/// The exclude cache key does not depend on the order of the excludes: any
/// reordering of the same excludes gives the same key.
pub proof fn exclude_cache_key_order_independent(a: Seq<Seq<char>>, b: Seq<Seq<char>>)
    requires
        a.to_multiset() == b.to_multiset(),
    ensures
        exclude_cache_key_spec(a) == exclude_cache_key_spec(b),
{
    let na = normalized_excludes(a);
    let nb = normalized_excludes(b);
    assert(na.to_multiset() =~= nb.to_multiset()) by {
        assert forall|y: Seq<char>| na.to_multiset().count(y) == nb.to_multiset().count(y) by {
            lemma_normalized_count(a, y);
            lemma_normalized_count(b, y);
            lemma_count_normalizing_perm(a, b, y);
        }
    }
    let ka = self_keyed(na);
    let kb = self_keyed(nb);
    assert(ka.to_multiset() =~= kb.to_multiset()) by {
        assert forall|p: (Seq<char>, Seq<char>)| ka.to_multiset().count(p) == kb.to_multiset().count(p) by {
            lemma_self_keyed_count(na, p);
            lemma_self_keyed_count(nb, p);
        }
    }
    lemma_stable_sort_sorted(ka);
    lemma_stable_sort_sorted(kb);
    lemma_self_keyed_sorted_elements(na);
    lemma_self_keyed_sorted_elements(nb);
    lemma_sorted_same_elements_equal(stable_sort_by_key(ka), stable_sort_by_key(kb));
}

/// Every normalised exclude is nonempty.
proof fn lemma_normalized_nonempty(ex: Seq<Seq<char>>)
    ensures
        forall|i: int| 0 <= i < normalized_excludes(ex).len() ==> (#[trigger] normalized_excludes(ex)[i]).len() > 0,
    decreases ex.len(),
{
    if ex.len() > 0 {
        lemma_normalized_nonempty(ex.drop_last());
        let rest = normalized_excludes(ex.drop_last());
        assert forall|i: int| 0 <= i < normalized_excludes(ex).len() implies (#[trigger] normalized_excludes(ex)[i]).len() > 0 by {
            if i < rest.len() {
                assert(normalized_excludes(ex)[i] == rest[i]);
            }
        }
    }
}

/// The names in the cache key's order are exactly the names given.
proof fn lemma_sorted_names_same_elements(s: Seq<Seq<char>>)
    ensures
        forall|x: Seq<char>| s.contains(x) <==> #[trigger] items_of(stable_sort_by_key(self_keyed(s))).contains(x),
{
    broadcast use vstd::seq_lib::group_to_multiset_ensures;

    let k = self_keyed(s);
    let srt = stable_sort_by_key(k);
    let items = items_of(srt);
    lemma_stable_sort_sorted(k);
    assert forall|x: Seq<char>| s.contains(x) <==> #[trigger] items.contains(x) by {
        if s.contains(x) {
            let j = choose|j: int| 0 <= j < s.len() && s[j] == x;
            assert(k[j] == (x, x));
            assert(k.to_multiset().count((x, x)) > 0);
            assert(srt.contains((x, x)));
            let m = choose|m: int| 0 <= m < srt.len() && srt[m] == (x, x);
            assert(items[m] == x);
        }
        if items.contains(x) {
            let m = choose|m: int| 0 <= m < items.len() && items[m] == x;
            assert(srt.to_multiset().count(srt[m]) > 0);
            assert(k.contains(srt[m]));
            let j = choose|j: int| 0 <= j < k.len() && k[j] == srt[m];
            assert(s[j] == x);
        }
    }
}

/// Exclude lists that name the same normalised names remove the same entries.
proof fn lemma_remaining_same_names(s: Seq<(Seq<char>, u64)>, na: Seq<Seq<char>>, nb: Seq<Seq<char>>)
    requires
        forall|x: Seq<char>| #[trigger] na.contains(x) <==> nb.contains(x),
    ensures
        remaining_after(s, na) == remaining_after(s, nb),
    decreases s.len(),
{
    if s.len() > 0 {
        lemma_remaining_same_names(s.drop_last(), na, nb);
        assert(is_excluded(na, s.last().0) == is_excluded(nb, s.last().0));
    }
}

/// The exclude cache key identifies what the excludes remove: exclude lists
/// with equal keys leave the same languages of any totals, provided no
/// normalised exclude holds a comma (commas separate names in the key).
pub proof fn equal_exclude_keys_remove_the_same(a: Seq<Seq<char>>, b: Seq<Seq<char>>, totals: Seq<(Seq<char>, u64)>)
    requires
        forall|i: int| 0 <= i < normalized_excludes(a).len() ==> !(#[trigger] normalized_excludes(a)[i]).contains(','),
        forall|i: int| 0 <= i < normalized_excludes(b).len() ==> !(#[trigger] normalized_excludes(b)[i]).contains(','),
        exclude_cache_key_spec(a) == exclude_cache_key_spec(b),
    ensures
        remaining_after(totals, normalized_excludes(a)) == remaining_after(totals, normalized_excludes(b)),
{
    let na = normalized_excludes(a);
    let nb = normalized_excludes(b);
    let pa = items_of(stable_sort_by_key(self_keyed(na)));
    let pb = items_of(stable_sort_by_key(self_keyed(nb)));
    lemma_normalized_nonempty(a);
    lemma_normalized_nonempty(b);
    lemma_sorted_names_same_elements(na);
    lemma_sorted_names_same_elements(nb);
    assert forall|i: int| 0 <= i < pa.len() implies (#[trigger] pa[i]).len() > 0 && !pa[i].contains(',') by {
        assert(pa.contains(pa[i]));
        let j = choose|j: int| 0 <= j < na.len() && na[j] == pa[i];
    }
    assert forall|i: int| 0 <= i < pb.len() implies (#[trigger] pb[i]).len() > 0 && !pb[i].contains(',') by {
        assert(pb.contains(pb[i]));
        let j = choose|j: int| 0 <= j < nb.len() && nb[j] == pb[i];
    }
    lemma_join_injective(pa, pb, ',');
    assert forall|x: Seq<char>| #[trigger] na.contains(x) <==> nb.contains(x) by {
        assert(na.contains(x) <==> pa.contains(x));
        assert(nb.contains(x) <==> pb.contains(x));
    }
    lemma_remaining_same_names(totals, na, nb);
}

/// After stripping, the sequence starts with neither a space nor `+`, and
/// holds only characters of the input.
proof fn lemma_strip_leading_marks(t: Seq<char>)
    ensures
        strip_leading_marks(t).len() == 0 || (strip_leading_marks(t)[0] != '+' && strip_leading_marks(t)[0] != ' '),
        forall|x: char| strip_leading_marks(t).contains(x) ==> t.contains(x),
    decreases t.len(),
{
    if t.len() > 0 && (t[0] == '+' || t[0] == ' ') {
        lemma_strip_leading_marks(t.drop_first());
        assert forall|x: char| strip_leading_marks(t).contains(x) implies t.contains(x) by {
            assert(strip_leading_marks(t) == strip_leading_marks(t.drop_first()));
            assert(t.drop_first().contains(x));
            let k = choose|k: int| 0 <= k < t.drop_first().len() && t.drop_first()[k] == x;
            assert(t[k + 1] == x);
        }
    }
}

/// The trailing run of spaces and `+`: every character in it is one of them,
/// and the character before it (if any) is neither.
proof fn lemma_trailing_marks(s: Seq<char>)
    ensures
        trailing_marks(s) <= s.len(),
        forall|i: int| s.len() - trailing_marks(s) <= i < s.len() ==> (#[trigger] s[i] == ' ' || s[i] == '+'),
        trailing_marks(s) < s.len() ==> !(s[s.len() - trailing_marks(s) - 1] == ' ' || s[s.len() - trailing_marks(s) - 1] == '+'),
    decreases s.len(),
{
    if s.len() > 0 && (s.last() == ' ' || s.last() == '+') {
        let t = s.drop_last();
        lemma_trailing_marks(t);
        assert forall|i: int| s.len() - trailing_marks(s) <= i < s.len() implies (#[trigger] s[i] == ' ' || s[i] == '+') by {
            if i < s.len() - 1 {
                assert(s[i] == t[i]);
            }
        }
        if trailing_marks(s) < s.len() {
            assert(s[s.len() - trailing_marks(s) - 1] == t[t.len() - trailing_marks(t) - 1]);
        }
    }
}

/// A run of exactly `m` spaces and `+` at the end gives `trailing_marks` `m`.
proof fn lemma_trailing_marks_exact(s: Seq<char>, m: nat)
    requires
        m <= s.len(),
        forall|i: int| s.len() - m <= i < s.len() ==> (#[trigger] s[i] == ' ' || s[i] == '+'),
        m < s.len() ==> !(s[s.len() - m - 1] == ' ' || s[s.len() - m - 1] == '+'),
    ensures
        trailing_marks(s) == m,
    decreases m,
{
    if m > 0 {
        let t = s.drop_last();
        assert(s[s.len() - 1] == ' ' || s[s.len() - 1] == '+');
        assert forall|i: int| t.len() - (m - 1) <= i < t.len() implies (#[trigger] t[i] == ' ' || t[i] == '+') by {
            assert(t[i] == s[i]);
        }
        if m - 1 < t.len() {
            assert(t[t.len() - (m - 1) - 1] == s[s.len() - m - 1]);
        }
        lemma_trailing_marks_exact(t, (m - 1) as nat);
    } else if s.len() > 0 {
        assert(s.last() == s[s.len() - 1]);
    }
}

/// Decoding a decoded exclude changes nothing, and decoding brings in no comma.
proof fn lemma_decode_settles(t: Seq<char>)
    ensures
        decode_exclude_token_spec(decode_exclude_token_spec(t)) == decode_exclude_token_spec(t),
        !t.contains(',') ==> !decode_exclude_token_spec(t).contains(','),
{
    let s = strip_leading_marks(t);
    let tm = trailing_marks(s);
    let tp = trailing_marks_to_plus(s);
    let d = decode_exclude_token_spec(t);
    lemma_strip_leading_marks(t);
    lemma_trailing_marks(s);
    if !t.contains(',') {
        assert forall|i: int| 0 <= i < tp.len() implies tp[i] != ',' by {
            if i < s.len() - tm {
                assert(s.contains(s[i]));
            }
        }
        if d.contains(',') {
            let k = choose|k: int| 0 <= k < d.len() && d[k] == ',';
            assert(tp[k] == ',');
        }
    }
    if s.len() > 0 {
        // The first character is kept, so the run at the end is shorter than
        // the whole.
        assert(tm < s.len());
        assert(tp[0] == s[0]);
        if d == tp {
            assert(strip_leading_marks(d) == d);
            assert forall|i: int| d.len() - tm <= i < d.len() implies (#[trigger] d[i] == ' ' || d[i] == '+') by {}
            assert(d[d.len() - tm - 1] == s[s.len() - tm - 1]);
            lemma_trailing_marks_exact(d, tm);
            assert(trailing_marks_to_plus(d) =~= d);
        } else {
            // A single `+` was dropped: the run was one character long.
            if tm >= 2 {
                assert(d[s.len() - 2] == '+');
            }
            if tm == 0 {
                assert(tp.last() == s[s.len() - 1]);
            }
            assert(tm == 1);
            assert(s.len() >= 2);
            assert(d.len() == s.len() - 1);
            assert(d[0] == s[0]);
            assert(strip_leading_marks(d) == d);
            assert(d[d.len() - 1] == s[s.len() - 2]);
            lemma_trailing_marks_exact(d, 0);
            assert(trailing_marks_to_plus(d) =~= d);
            assert(d.last() != '+');
        }
    } else {
        assert(tp.len() == 0);
        assert(d.len() == 0);
        assert(strip_leading_marks(d) == d);
        assert(trailing_marks_to_plus(d) =~= d);
    }
}

/// An exclude as merging leaves it: nonempty, without a comma, and decoded.
pub open spec fn settled_exclude(e: Seq<char>) -> bool {
    e.len() > 0 && !e.contains(',') && decode_exclude_token_spec(e) == e
}

/// The decoded nonempty parts of comma-free parts are settled.
proof fn lemma_decoded_nonempty_settled(parts: Seq<Seq<char>>)
    requires
        forall|i: int| 0 <= i < parts.len() ==> !(#[trigger] parts[i]).contains(','),
    ensures
        forall|i: int| 0 <= i < decoded_nonempty(parts).len() ==> settled_exclude(#[trigger] decoded_nonempty(parts)[i]),
    decreases parts.len(),
{
    if parts.len() > 0 {
        let init = parts.drop_last();
        assert forall|i: int| 0 <= i < init.len() implies !(#[trigger] init[i]).contains(',') by {
            assert(init[i] == parts[i]);
        }
        lemma_decoded_nonempty_settled(init);
        assert(!parts[parts.len() - 1].contains(','));
        lemma_decode_settles(parts.last());
        let rest = decoded_nonempty(init);
        assert forall|i: int| 0 <= i < decoded_nonempty(parts).len() implies settled_exclude(#[trigger] decoded_nonempty(parts)[i]) by {
            if i < rest.len() {
                assert(decoded_nonempty(parts)[i] == rest[i]);
            }
        }
    }
}

/// Every exclude of the query values is settled.
proof fn lemma_flat_settled(params: Seq<Seq<char>>)
    ensures
        forall|i: int| 0 <= i < flat_excludes(params).len() ==> settled_exclude(#[trigger] flat_excludes(params)[i]),
    decreases params.len(),
{
    if params.len() > 0 {
        lemma_flat_settled(params.drop_last());
        lemma_split_parts_free(params.last(), ',');
        lemma_decoded_nonempty_settled(split_spec(params.last(), ','));
        let a = flat_excludes(params.drop_last());
        let b = parse_excludes_spec(params.last());
        assert forall|i: int| 0 <= i < flat_excludes(params).len() implies settled_exclude(#[trigger] flat_excludes(params)[i]) by {
            if i < a.len() {
                assert(flat_excludes(params)[i] == a[i]);
            } else {
                assert(flat_excludes(params)[i] == b[i - a.len()]);
            }
        }
    }
}

/// Settled excludes given as query values are read back one each, unchanged.
proof fn lemma_flat_of_settled(r: Seq<Seq<char>>)
    requires
        forall|i: int| 0 <= i < r.len() ==> settled_exclude(#[trigger] r[i]),
    ensures
        flat_excludes(r) == r,
    decreases r.len(),
{
    if r.len() > 0 {
        let init = r.drop_last();
        assert forall|i: int| 0 <= i < init.len() implies settled_exclude(#[trigger] init[i]) by {
            assert(init[i] == r[i]);
        }
        lemma_flat_of_settled(init);
        let e = r.last();
        assert(settled_exclude(r[r.len() - 1]));
        lemma_split_without_sep(e, ',');
        let one = seq![e];
        assert(one.drop_last() =~= Seq::<Seq<char>>::empty());
        assert(one.last() == e);
        assert(decoded_nonempty(one.drop_last()) =~= Seq::<Seq<char>>::empty());
        assert(decode_exclude_token_spec(e) == e);
        assert(decoded_nonempty(one) =~= seq![e]);
        assert(parse_excludes_spec(e) =~= seq![e]);
        assert(r =~= init + seq![e]);
    }
}

/// Deduplication keeps a list whose neighbours all differ ignoring ASCII case.
proof fn lemma_dedup_keeps_distinct_neighbours(s: Seq<Seq<char>>)
    requires
        forall|i: int| 0 <= i < s.len() - 1 ==> !eq_ignore_ascii_case_spec(#[trigger] s[i], s[i + 1]),
    ensures
        dedup_ignore_ascii_case(s) == s,
    decreases s.len(),
{
    if s.len() > 0 {
        let t = s.drop_last();
        assert forall|i: int| 0 <= i < t.len() - 1 implies !eq_ignore_ascii_case_spec(#[trigger] t[i], t[i + 1]) by {
            assert(t[i] == s[i] && t[i + 1] == s[i + 1]);
        }
        lemma_dedup_keeps_distinct_neighbours(t);
        if t.len() > 0 {
            let x = s.last();
            let y = t.last();
            assert(!eq_ignore_ascii_case_spec(s[s.len() - 2], s[s.len() - 1]));
            if eq_ignore_ascii_case_spec(x, y) {
                assert forall|k: int| 0 <= k < y.len() implies #[trigger] crate::text::ascii_lower(y[k])
                    == crate::text::ascii_lower(x[k]) by {
                    assert(crate::text::ascii_lower(x[k]) == crate::text::ascii_lower(y[k]));
                }
                assert(eq_ignore_ascii_case_spec(y, x));
            }
        }
        assert(s =~= t.push(s.last()));
    }
}

/// Merging an already merged exclude list changes nothing.
pub proof fn merging_merged_excludes_changes_nothing(params: Seq<Seq<char>>)
    ensures
        parse_excludes_from_params_spec(parse_excludes_from_params_spec(params)) == parse_excludes_from_params_spec(params),
{
    let r = parse_excludes_from_params_spec(params);
    let all = flat_excludes(params);
    parse_excludes_from_params_merges(params);
    lemma_flat_settled(params);
    assert forall|i: int| 0 <= i < r.len() implies settled_exclude(#[trigger] r[i]) by {
        assert(all.contains(r[i]));
        let k = choose|k: int| 0 <= k < all.len() && all[k] == r[i];
    }
    lemma_flat_of_settled(r);
    let lk = lowercase_keyed(r);
    assert(sorted_by_key(lk)) by {
        assert forall|i: int, j: int| 0 <= i < j < lk.len() implies lex_le(#[trigger] lk[i].0, #[trigger] lk[j].0) by {
            assert(lk[i].0 == unicode_lowercase(r[i]));
            assert(lk[j].0 == unicode_lowercase(r[j]));
        }
    }
    lemma_sorted_input_unchanged(lk);
    assert(items_of(lk) =~= r);
    lemma_dedup_keeps_distinct_neighbours(r);
}

/// Excludes remove a language exactly when its trimmed, lowercased name is one
/// of the normalised excludes: every entry whose normalised name is among them
/// is gone, every other entry stays.
pub proof fn excludes_remove_exactly_matching_names(s: Seq<(Seq<char>, u64)>, norm: Seq<Seq<char>>)
    ensures
        forall|i: int| 0 <= i < s.len() && !norm.contains(unicode_lowercase(trim_spec((#[trigger] s[i]).0)))
            ==> remaining_after(s, norm).contains(s[i]),
        forall|i: int| 0 <= i < remaining_after(s, norm).len() ==> !norm.contains(
            unicode_lowercase(trim_spec((#[trigger] remaining_after(s, norm)[i]).0)),
        ),
{
    apply_excludes_keeps_exactly_unexcluded(s, norm);
}

/// An exclude that equals no language's normalised name removes nothing more:
/// `Shell` leaves `PowerShell`, `C` leaves `Objective-C`.
pub proof fn unmatched_exclude_removes_nothing(s: Seq<(Seq<char>, u64)>, norm: Seq<Seq<char>>, x: Seq<char>)
    requires
        forall|i: int| 0 <= i < s.len() ==> unicode_lowercase(trim_spec((#[trigger] s[i]).0)) != x,
    ensures
        remaining_after(s, norm.push(x)) == remaining_after(s, norm),
    decreases s.len(),
{
    if s.len() > 0 {
        let t = s.drop_last();
        assert forall|i: int| 0 <= i < t.len() implies unicode_lowercase(trim_spec((#[trigger] t[i]).0)) != x by {
            assert(t[i] == s[i]);
        }
        unmatched_exclude_removes_nothing(t, norm, x);
        let n = unicode_lowercase(trim_spec(s.last().0));
        assert(n != x) by {
            assert(s.last() == s[s.len() - 1]);
        }
        assert(norm.push(x).contains(n) == norm.contains(n)) by {
            if norm.push(x).contains(n) {
                let k = choose|k: int| 0 <= k < norm.push(x).len() && norm.push(x)[k] == n;
                assert(k < norm.len());
                assert(norm[k] == n);
            }
            if norm.contains(n) {
                let k = choose|k: int| 0 <= k < norm.len() && norm[k] == n;
                assert(norm.push(x)[k] == n);
            }
        }
    }
}

/// Applying excludes keeps exactly the languages that no exclude names: every
/// remaining language is one of the totals and is not excluded, and every
/// language of the totals that is not excluded remains.
pub proof fn apply_excludes_keeps_exactly_unexcluded(s: Seq<(Seq<char>, u64)>, norm: Seq<Seq<char>>)
    ensures
        forall|i: int| 0 <= i < remaining_after(s, norm).len() ==> {
            &&& s.contains(#[trigger] remaining_after(s, norm)[i])
            &&& !is_excluded(norm, remaining_after(s, norm)[i].0)
        },
        forall|i: int| 0 <= i < s.len() && !is_excluded(norm, (#[trigger] s[i]).0) ==> remaining_after(s, norm).contains(s[i]),
    decreases s.len(),
{
    lemma_remaining_after(s, norm);
    if s.len() > 0 {
        let t = s.drop_last();
        apply_excludes_keeps_exactly_unexcluded(t, norm);
        let r = remaining_after(s, norm);
        let rt = remaining_after(t, norm);
        assert forall|i: int| 0 <= i < r.len() implies !is_excluded(norm, (#[trigger] r[i]).0) by {
            if i < rt.len() {
                assert(r[i] == rt[i]);
            }
        }
        assert forall|i: int| 0 <= i < s.len() && !is_excluded(norm, (#[trigger] s[i]).0) implies r.contains(s[i]) by {
            if i < t.len() {
                assert(t[i] == s[i]);
                assert(rt.contains(t[i]));
                let k = choose|k: int| 0 <= k < rt.len() && rt[k] == t[i];
                assert(r[k] == rt[k]);
            } else {
                assert(r[r.len() - 1] == s[i]);
            }
        }
    }
}

/// Every entry that deduplication keeps is an entry of its input.
proof fn lemma_dedup_from_input(s: Seq<Seq<char>>)
    ensures
        forall|i: int| 0 <= i < dedup_ignore_ascii_case(s).len() ==> s.contains(#[trigger] dedup_ignore_ascii_case(s)[i]),
    decreases s.len(),
{
    if s.len() > 0 {
        let t = s.drop_last();
        lemma_dedup_from_input(t);
        let d = dedup_ignore_ascii_case(s);
        let dt = dedup_ignore_ascii_case(t);
        assert forall|i: int| 0 <= i < d.len() implies s.contains(#[trigger] d[i]) by {
            if i < dt.len() {
                assert(d[i] == dt[i]);
                assert(t.contains(dt[i]));
                let k = choose|k: int| 0 <= k < t.len() && t[k] == dt[i];
                assert(s[k] == t[k]);
            } else {
                assert(d[i] == s[s.len() - 1]);
            }
        }
    }
}

/// Every input entry is equal, ignoring ASCII case, to an entry that
/// deduplication keeps.
proof fn lemma_dedup_covers(s: Seq<Seq<char>>)
    ensures
        forall|i: int| 0 <= i < s.len() ==> exists|j: int|
            0 <= j < dedup_ignore_ascii_case(s).len() && eq_ignore_ascii_case_spec(#[trigger] s[i], dedup_ignore_ascii_case(s)[j]),
    decreases s.len(),
{
    if s.len() > 0 {
        let t = s.drop_last();
        lemma_dedup_covers(t);
        let d = dedup_ignore_ascii_case(s);
        let dt = dedup_ignore_ascii_case(t);
        let x = s.last();
        assert forall|i: int| 0 <= i < s.len() implies exists|j: int| 0 <= j < d.len() && eq_ignore_ascii_case_spec(#[trigger] s[i], d[j]) by {
            if i < t.len() {
                assert(s[i] == t[i]);
                let j = choose|j: int| 0 <= j < dt.len() && eq_ignore_ascii_case_spec(t[i], dt[j]);
                assert(d[j] == dt[j]);
            } else if dt.len() > 0 && eq_ignore_ascii_case_spec(x, dt.last()) {
                assert(d[dt.len() - 1] == dt.last());
            } else {
                assert(d[dt.len() as int] == x);
                assert(eq_ignore_ascii_case_spec(x, x));
            }
        }
    }
}

/// No two neighbours that deduplication keeps are equal ignoring ASCII case.
proof fn lemma_dedup_neighbours(s: Seq<Seq<char>>)
    ensures
        forall|i: int| 0 <= i < dedup_ignore_ascii_case(s).len() - 1
            ==> !eq_ignore_ascii_case_spec(#[trigger] dedup_ignore_ascii_case(s)[i], dedup_ignore_ascii_case(s)[i + 1]),
    decreases s.len(),
{
    if s.len() > 0 {
        let t = s.drop_last();
        lemma_dedup_neighbours(t);
        let d = dedup_ignore_ascii_case(s);
        let dt = dedup_ignore_ascii_case(t);
        let x = s.last();
        assert forall|i: int| 0 <= i < d.len() - 1 implies !eq_ignore_ascii_case_spec(#[trigger] d[i], d[i + 1]) by {
            if i + 1 < dt.len() {
                assert(d[i] == dt[i] && d[i + 1] == dt[i + 1]);
            } else {
                assert(d[i] == dt.last());
                assert(d[i + 1] == x);
                assert(!eq_ignore_ascii_case_spec(x, dt.last()));
                if eq_ignore_ascii_case_spec(dt.last(), x) {
                    assert forall|k: int| 0 <= k < x.len() implies #[trigger] crate::text::ascii_lower(x[k])
                        == crate::text::ascii_lower(dt.last()[k]) by {
                        assert(crate::text::ascii_lower(dt.last()[k]) == crate::text::ascii_lower(x[k]));
                    }
                }
            }
        }
    }
}

/// Input in nondecreasing order of lowercase forms stays so after
/// deduplication.
proof fn lemma_dedup_sorted(s: Seq<Seq<char>>)
    requires
        forall|i: int, j: int| 0 <= i < j < s.len() ==> lex_le(unicode_lowercase(#[trigger] s[i]), unicode_lowercase(#[trigger] s[j])),
    ensures
        forall|i: int, j: int| 0 <= i < j < dedup_ignore_ascii_case(s).len()
            ==> lex_le(unicode_lowercase(#[trigger] dedup_ignore_ascii_case(s)[i]), unicode_lowercase(#[trigger] dedup_ignore_ascii_case(s)[j])),
    decreases s.len(),
{
    if s.len() > 0 {
        let t = s.drop_last();
        assert forall|i: int, j: int| 0 <= i < j < t.len() implies lex_le(unicode_lowercase(#[trigger] t[i]), unicode_lowercase(#[trigger] t[j])) by {
            assert(t[i] == s[i] && t[j] == s[j]);
        }
        lemma_dedup_sorted(t);
        lemma_dedup_from_input(t);
        let d = dedup_ignore_ascii_case(s);
        let dt = dedup_ignore_ascii_case(t);
        let x = s.last();
        assert forall|i: int, j: int| 0 <= i < j < d.len() implies lex_le(unicode_lowercase(#[trigger] d[i]), unicode_lowercase(#[trigger] d[j])) by {
            if j < dt.len() {
                assert(d[i] == dt[i] && d[j] == dt[j]);
            } else {
                assert(d[j] == x);
                assert(d[i] == dt[i]);
                assert(t.contains(dt[i]));
                let k = choose|k: int| 0 <= k < t.len() && t[k] == dt[i];
                assert(s[k] == t[k]);
                assert(s[s.len() - 1] == x);
            }
        }
    }
}

/// The items of the lowercase-keyed sort are the excludes, reordered, in
/// nondecreasing order of their lowercase forms.
proof fn lemma_lowercase_sorted_items(all: Seq<Seq<char>>)
    ensures
        ({
            let items = items_of(stable_sort_by_key(lowercase_keyed(all)));
            &&& forall|i: int, j: int| 0 <= i < j < items.len() ==> lex_le(unicode_lowercase(#[trigger] items[i]), unicode_lowercase(#[trigger] items[j]))
            &&& forall|i: int| 0 <= i < items.len() ==> all.contains(#[trigger] items[i])
            &&& forall|i: int| 0 <= i < all.len() ==> items.contains(#[trigger] all[i])
        }),
{
    broadcast use vstd::seq_lib::group_to_multiset_ensures;

    let k = lowercase_keyed(all);
    let srt = stable_sort_by_key(k);
    let items = items_of(srt);
    lemma_stable_sort_sorted(k);
    assert forall|i: int| 0 <= i < srt.len() implies (#[trigger] srt[i]).0 == unicode_lowercase(srt[i].1) && all.contains(srt[i].1) by {
        assert(srt.to_multiset().count(srt[i]) > 0);
        assert(k.contains(srt[i]));
        let m = choose|m: int| 0 <= m < k.len() && k[m] == srt[i];
        assert(k[m] == (unicode_lowercase(all[m]), all[m]));
    }
    assert forall|i: int, j: int| 0 <= i < j < items.len() implies lex_le(unicode_lowercase(#[trigger] items[i]), unicode_lowercase(#[trigger] items[j])) by {
        assert(items[i] == srt[i].1 && items[j] == srt[j].1);
        assert(srt[i].0 == unicode_lowercase(srt[i].1));
        assert(srt[j].0 == unicode_lowercase(srt[j].1));
    }
    assert forall|i: int| 0 <= i < items.len() implies all.contains(#[trigger] items[i]) by {
        assert(items[i] == srt[i].1);
    }
    assert forall|i: int| 0 <= i < all.len() implies items.contains(#[trigger] all[i]) by {
        assert(k[i] == (unicode_lowercase(all[i]), all[i]));
        assert(k.contains(k[i]));
        assert(k.to_multiset().count(k[i]) > 0);
        assert(srt.contains(k[i]));
        let m = choose|m: int| 0 <= m < srt.len() && srt[m] == k[i];
        assert(items[m] == all[i]);
    }
}

/// The merged exclude list: its entries are excludes from the query values, in
/// nondecreasing order of their lowercase forms; no two neighbours are equal
/// ignoring ASCII case; and every exclude of every value is equal, ignoring
/// ASCII case, to an entry of the list.
pub proof fn parse_excludes_from_params_merges(params: Seq<Seq<char>>)
    ensures
        ({
            let r = parse_excludes_from_params_spec(params);
            let all = flat_excludes(params);
            &&& forall|i: int| 0 <= i < r.len() ==> all.contains(#[trigger] r[i])
            &&& forall|i: int| 0 <= i < all.len() ==> exists|j: int| 0 <= j < r.len() && eq_ignore_ascii_case_spec(#[trigger] all[i], r[j])
            &&& forall|i: int| 0 <= i < r.len() - 1 ==> !eq_ignore_ascii_case_spec(#[trigger] r[i], r[i + 1])
            &&& forall|i: int, j: int| 0 <= i < j < r.len() ==> lex_le(unicode_lowercase(#[trigger] r[i]), unicode_lowercase(#[trigger] r[j]))
        }),
{
    let all = flat_excludes(params);
    let items = items_of(stable_sort_by_key(lowercase_keyed(all)));
    lemma_lowercase_sorted_items(all);
    lemma_dedup_from_input(items);
    lemma_dedup_covers(items);
    lemma_dedup_neighbours(items);
    lemma_dedup_sorted(items);
    let r = parse_excludes_from_params_spec(params);
    assert forall|i: int| 0 <= i < r.len() implies all.contains(#[trigger] r[i]) by {
        assert(items.contains(r[i]));
        let m = choose|m: int| 0 <= m < items.len() && items[m] == r[i];
        assert(all.contains(items[m]));
    }
    assert forall|i: int| 0 <= i < all.len() implies exists|j: int| 0 <= j < r.len() && eq_ignore_ascii_case_spec(#[trigger] all[i], r[j]) by {
        assert(items.contains(all[i]));
        let m = choose|m: int| 0 <= m < items.len() && items[m] == all[i];
        let j = choose|j: int| 0 <= j < r.len() && eq_ignore_ascii_case_spec(#[trigger] items[m], r[j]);
    }
}

} // verus!
