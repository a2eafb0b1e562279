//! Normalisation of raw query strings before they are deserialised.
//!
//! Badge URLs sometimes join flags with commas, as in
//! `minimal=true,showUsername=false&exclude=HTML,CSS`; such commas are turned
//! into `&` so that the string reads `minimal=true&showUsername=false&exclude=HTML,CSS`.
use vstd::prelude::*;
use crate::text::{chars_of, string_of, is_ascii_alpha, is_ascii_alnum, is_ascii_alphabetic, is_ascii_alphanumeric};

verus! {

/// A character that may follow the first one of a parameter name.
pub open spec fn is_name_tail_char(c: char) -> bool {
    is_ascii_alnum(c) || c == '_'
}

/// A parameter name: an ASCII letter followed by ASCII letters, digits or `_`.
pub open spec fn is_param_name_spec(s: Seq<char>) -> bool {
    &&& s.len() > 0
    &&& is_ascii_alpha(s[0])
    &&& forall|i: int| 1 <= i < s.len() ==> #[trigger] is_name_tail_char(s[i])
}

/// After position `j` of `s` comes a parameter name and then `=`.
pub open spec fn param_follows(s: Seq<char>, j: int) -> bool {
    exists|k: int| j < k < s.len() && s[k] == '=' && #[trigger] is_param_name_spec(s.subrange(j + 1, k))
}

/// Some `=` stands before position `j` of a segment.
pub open spec fn has_eq_before(s: Seq<char>, j: int) -> bool {
    exists|e: int| 0 <= e < j && s[e] == '='
}

/// The character at `j` of a `&`-free segment after expansion: a comma in the
/// value part that is followed by `name=` becomes `&`.
pub open spec fn expanded_char(s: Seq<char>, j: int) -> char {
    if s[j] == ',' && has_eq_before(s, j) && param_follows(s, j) {
        '&'
    } else {
        s[j]
    }
}

/// A segment after expansion.
pub open spec fn expand_segment_spec(s: Seq<char>) -> Seq<char> {
    Seq::new(s.len(), |j: int| expanded_char(s, j))
}

/// Position `j` of a whole query lies in the value part of its `&`-separated
/// segment: some `=` stands before it with no `&` in between.
pub open spec fn in_value_part(q: Seq<char>, j: int) -> bool {
    exists|e: int| 0 <= e < j && q[e] == '=' && (forall|m: int| e < m < j ==> #[trigger] q[m] != '&')
}

/// The character at `j` of a whole query after normalisation.
pub open spec fn normalized_char(q: Seq<char>, j: int) -> char {
    if q[j] == ',' && in_value_part(q, j) && param_follows(q, j) {
        '&'
    } else {
        q[j]
    }
}

/// A whole query after normalisation: the same characters, except that each
/// comma in a value part that is directly followed by `name=` is now `&`.
pub open spec fn normalize_query_spec(q: Seq<char>) -> Seq<char> {
    Seq::new(q.len(), |j: int| normalized_char(q, j))
}

/// Whether `name` is a parameter name: first an ASCII letter, then ASCII
/// letters, digits or `_`.
fn is_param_name(name: &[char]) -> (r: bool)
    ensures
        r == is_param_name_spec(name@),
{
    if name.len() == 0 {
        return false;
    }
    if !is_ascii_alphabetic(name[0]) {
        return false;
    }
    let mut i: usize = 1;
    while i < name.len()
        invariant
            1 <= i <= name@.len(),
            forall|m: int| 1 <= m < i ==> #[trigger] is_name_tail_char(name@[m]),
        decreases name@.len() - i,
    {
        if !(is_ascii_alphanumeric(name[i]) || name[i] == '_') {
            assert(!is_name_tail_char(name@[i as int]));
            return false;
        }
        i = i + 1;
    }
    true
}

/// Whether the comma at `j` is followed by a parameter name and `=`: looks for
/// the first `=` after `j` and tests the text in between.
fn comma_starts_param(s: &[char], j: usize) -> (r: bool)
    requires
        j < s@.len(),
    ensures
        r == param_follows(s@, j as int),
{
    let n = s.len();
    let mut k: usize = j + 1;
    while k < n && s[k] != '='
        invariant
            n == s@.len(),
            j < k <= s@.len(),
            forall|m: int| j < m < k ==> s@[m] != '=',
        decreases s@.len() - k,
    {
        k = k + 1;
    }
    if k == n {
        assert(!param_follows(s@, j as int));
        return false;
    }
    let name = &s[j + 1..k];
    assert(name@ =~= s@.subrange(j + 1, k as int));
    let r = is_param_name(name);
    proof {
        if !r {
            assert forall|k2: int| j < k2 < s@.len() && s@[k2] == '=' implies !#[trigger] is_param_name_spec(
                s@.subrange(j + 1, k2),
            ) by {
                if k2 > k {
                    let sub = s@.subrange(j + 1, k2);
                    let idx = k - j - 1;
                    assert(sub[idx] == '=');
                    if idx >= 1 {
                        assert(!is_name_tail_char(sub[idx]));
                    }
                }
            }
        }
    }
    r
}

/// Expands one `&`-free segment `key=value` of a query: each comma of the value
/// that is directly followed by `name=` (a parameter name) becomes `&`.
fn expand_comma_separated_params(segment: &[char]) -> (r: Vec<char>)
    ensures
        r@ == expand_segment_spec(segment@),
{
    let mut out: Vec<char> = Vec::new();
    let mut seen_eq = false;
    let mut j: usize = 0;
    while j < segment.len()
        invariant
            j <= segment@.len(),
            out@ == expand_segment_spec(segment@).take(j as int),
            seen_eq == has_eq_before(segment@, j as int),
        decreases segment@.len() - j,
    {
        let c = segment[j];
        let split = c == ',' && seen_eq && comma_starts_param(segment, j);
        if split {
            out.push('&');
        } else {
            out.push(c);
        }
        assert(out@ =~= expand_segment_spec(segment@).take(j + 1));
        if c == '=' {
            seen_eq = true;
        }
        assert(seen_eq == has_eq_before(segment@, j + 1)) by {
            if has_eq_before(segment@, j + 1) && !has_eq_before(segment@, j as int) {
                assert(segment@[j as int] == '=');
            }
        }
        j = j + 1;
    }
    assert(out@ =~= expand_segment_spec(segment@));
    out
}

/// Within a `&`-delimited segment `[s, e)` of `q`, normalising the whole query
/// and expanding the segment alone agree.
proof fn lemma_segment_agrees(q: Seq<char>, s: int, e: int)
    requires
        0 <= s <= e <= q.len(),
        s == 0 || q[s - 1] == '&',
        e == q.len() || q[e] == '&',
        forall|m: int| s <= m < e ==> q[m] != '&',
    ensures
        expand_segment_spec(q.subrange(s, e)) =~= normalize_query_spec(q).subrange(s, e),
{
    let seg = q.subrange(s, e);
    assert forall|jj: int| 0 <= jj < e - s implies #[trigger] expanded_char(seg, jj) == normalized_char(q, s + jj) by {
        let j = s + jj;
        assert(seg[jj] == q[j]);
        // The value part of the segment is the value part of the query.
        if has_eq_before(seg, jj) {
            let e2 = choose|e2: int| 0 <= e2 < jj && seg[e2] == '=';
            assert(q[s + e2] == '=');
            assert forall|m: int| s + e2 < m < j implies #[trigger] q[m] != '&' by {}
            assert(in_value_part(q, j));
        }
        if in_value_part(q, j) {
            let e1 = choose|e1: int| 0 <= e1 < j && q[e1] == '=' && (forall|m: int| e1 < m < j ==> #[trigger] q[m] != '&');
            if e1 < s {
                assert(q[s - 1] != '&');
                assert(false);
            }
            assert(seg[e1 - s] == '=');
            assert(has_eq_before(seg, jj));
        }
        // A parameter name after the comma stays inside the segment.
        if param_follows(seg, jj) {
            let k = choose|k: int| jj < k < seg.len() && seg[k] == '=' && #[trigger] is_param_name_spec(seg.subrange(jj + 1, k));
            assert(seg.subrange(jj + 1, k) =~= q.subrange(j + 1, s + k));
            assert(q[s + k] == '=');
            assert(param_follows(q, j));
        }
        if param_follows(q, j) {
            let k = choose|k: int| j < k < q.len() && q[k] == '=' && #[trigger] is_param_name_spec(q.subrange(j + 1, k));
            if k >= e {
                let name = q.subrange(j + 1, k);
                assert(e < q.len());
                let idx = e - j - 1;
                assert(name[idx] == '&');
                if idx >= 1 {
                    assert(!is_name_tail_char(name[idx]));
                }
                assert(false);
            }
            assert(seg.subrange(jj + 1, k - s) =~= q.subrange(j + 1, k));
            assert(seg[k - s] == '=');
            assert(param_follows(seg, jj));
        }
    }
}

/// Expands comma-separated query parameters into `&`-separated pairs.
///
/// The query is split at `&`; in each segment `key=value`, a comma of the value
/// that is directly followed by `name=` (an ASCII letter, then ASCII letters,
/// digits or `_`, then `=`) becomes `&`. Every other character stays, so
/// `minimal=true,showUsername=false&exclude=HTML,CSS` becomes
/// `minimal=true&showUsername=false&exclude=HTML,CSS`.
pub fn normalize_query_commas(query: &str) -> (r: String)
    ensures
        r@ == normalize_query_spec(query@),
{
    let q = chars_of(query);
    let n = q.len();
    let mut out: Vec<char> = Vec::new();
    let mut start: usize = 0;
    let mut i: usize = 0;
    while i < n
        invariant
            n == q@.len(),
            q@ == query@,
            start <= i <= n,
            start == 0 || q@[start - 1] == '&',
            forall|m: int| start <= m < i ==> q@[m] != '&',
            out@ == normalize_query_spec(q@).take(start as int),
        decreases n - i,
    {
        if q[i] == '&' {
            let seg = &q[start..i];
            let expanded = expand_comma_separated_params(seg);
            proof {
                assert(q@.subrange(start as int, i as int) =~= seg@);
                lemma_segment_agrees(q@, start as int, i as int);
            }
            let mut t: usize = 0;
            while t < expanded.len()
                invariant
                    t <= expanded@.len(),
                    expanded@.len() == i - start,
                    out@ == normalize_query_spec(q@).take(start as int) + expanded@.take(t as int),
                decreases expanded@.len() - t,
            {
                out.push(expanded[t]);
                assert(expanded@.take(t as int).push(expanded@[t as int]) =~= expanded@.take(t + 1));
                t = t + 1;
            }
            out.push('&');
            assert(normalized_char(q@, i as int) == '&');
            assert(expanded@.take(t as int) =~= expanded@);
            assert(out@ =~= normalize_query_spec(q@).take(i + 1));
            start = i + 1;
        }
        i = i + 1;
    }
    let seg = &q[start..n];
    let expanded = expand_comma_separated_params(seg);
    proof {
        assert(q@.subrange(start as int, n as int) =~= seg@);
        lemma_segment_agrees(q@, start as int, n as int);
    }
    let mut t: usize = 0;
    while t < expanded.len()
        invariant
            t <= expanded@.len(),
            expanded@.len() == n - start,
            out@ == normalize_query_spec(q@).take(start as int) + expanded@.take(t as int),
        decreases expanded@.len() - t,
    {
        out.push(expanded[t]);
        assert(expanded@.take(t as int).push(expanded@[t as int]) =~= expanded@.take(t + 1));
        t = t + 1;
    }
    assert(out@ =~= normalize_query_spec(q@));
    string_of(&out)
}

/// Normalising a query twice gives the same result as normalising it once: the
/// commas that remain after one pass are not followed by `name=` in a value part.
pub proof fn normalize_query_idempotent(q: Seq<char>)
    ensures
        normalize_query_spec(normalize_query_spec(q)) == normalize_query_spec(q),
{
    let q1 = normalize_query_spec(q);
    assert forall|j: int| 0 <= j < q1.len() implies #[trigger] normalized_char(q1, j) == q1[j] by {
        if q1[j] == ',' && in_value_part(q1, j) && param_follows(q1, j) {
            assert(q[j] == ',');
            let k = choose|k: int| j < k < q1.len() && q1[k] == '=' && #[trigger] is_param_name_spec(q1.subrange(j + 1, k));
            let name1 = q1.subrange(j + 1, k);
            assert forall|m: int| j < m <= k implies q1[m] == q[m] by {
                if m < k {
                    let idx = m - j - 1;
                    assert(name1[idx] == q1[m]);
                    if idx >= 1 {
                        assert(is_name_tail_char(name1[idx]));
                    }
                }
            }
            assert(q.subrange(j + 1, k) =~= name1);
            assert(param_follows(q, j));
            let e = choose|e: int| 0 <= e < j && q1[e] == '=' && (forall|m: int| e < m < j ==> #[trigger] q1[m] != '&');
            assert(q[e] == '=');
            assert forall|m: int| e < m < j implies #[trigger] q[m] != '&' by {
                assert(q1[m] != '&');
            }
            assert(in_value_part(q, j));
            assert(false);
        }
    }
    assert(normalize_query_spec(q1) =~= q1);
}

/// Normalisation keeps the length of the query and changes no character but
/// commas, each of which may become `&`.
pub proof fn normalize_query_only_turns_commas(q: Seq<char>)
    ensures
        normalize_query_spec(q).len() == q.len(),
        forall|j: int| 0 <= j < q.len() ==> {
            ||| #[trigger] normalize_query_spec(q)[j] == q[j]
            ||| (q[j] == ',' && normalize_query_spec(q)[j] == '&')
        },
{
}

/// A query without commas is left as it is.
pub proof fn normalize_query_without_commas(q: Seq<char>)
    requires
        forall|j: int| 0 <= j < q.len() ==> q[j] != ',',
    ensures
        normalize_query_spec(q) == q,
{
    assert(normalize_query_spec(q) =~= q);
}

} // verus!
