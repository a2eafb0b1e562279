//! Character-level helpers shared by the query, exclude and SVG code.
use vstd::prelude::*;

verus! {

/// `String::push`: appends one character.
#[verifier::external_body]
pub(crate) fn push_char(s: &mut String, c: char)
    ensures
        final(s)@ == old(s)@.push(c),
{
    s.push(c);
}

/// The characters of a string slice, in order.
pub fn chars_of(s: &str) -> (r: Vec<char>)
    ensures
        r@ == s@,
{
    let mut out: Vec<char> = Vec::new();
    for c in it: s.chars()
        invariant
            out@ == it.seq().take(it.index()),
            it.seq() == s@,
    {
        out.push(c);
    }
    out
}

/// Builds a `String` from a character sequence.
pub fn string_of(cs: &[char]) -> (r: String)
    ensures
        r@ == cs@,
{
    let mut out = String::new();
    let mut i: usize = 0;
    while i < cs.len()
        invariant
            i <= cs@.len(),
            out@ == cs@.take(i as int),
        decreases cs@.len() - i,
    {
        push_char(&mut out, cs[i]);
        assert(cs@.take(i as int).push(cs@[i as int]) =~= cs@.take(i + 1));
        i = i + 1;
    }
    assert(cs@.take(cs@.len() as int) =~= cs@);
    out
}

} // verus!

verus! {

/// ASCII letter.
pub open spec fn is_ascii_alpha(c: char) -> bool {
    ('a' <= c && c <= 'z') || ('A' <= c && c <= 'Z')
}

/// ASCII decimal digit.
pub open spec fn is_ascii_digit(c: char) -> bool {
    '0' <= c && c <= '9'
}

/// ASCII letter or digit.
pub open spec fn is_ascii_alnum(c: char) -> bool {
    is_ascii_alpha(c) || is_ascii_digit(c)
}

/// `char::is_ascii_alphabetic`.
pub fn is_ascii_alphabetic(c: char) -> (r: bool)
    ensures
        r == is_ascii_alpha(c),
{
    ('a' <= c && c <= 'z') || ('A' <= c && c <= 'Z')
}

/// `char::is_ascii_alphanumeric`.
pub fn is_ascii_alphanumeric(c: char) -> (r: bool)
    ensures
        r == is_ascii_alnum(c),
{
    is_ascii_alphabetic(c) || ('0' <= c && c <= '9')
}


/// The White_Space property of the Unicode Character Database, as
/// `char::is_whitespace` reports it.
pub uninterp spec fn unicode_white_space(c: char) -> bool;

/// `char::is_whitespace`: whether the character has the Unicode White_Space
/// property. Its result is named, not stated: which characters have the
/// property is not written out here.
#[verifier::external_body]
pub(crate) fn is_whitespace(c: char) -> (r: bool)
    ensures
        r == unicode_white_space(c),
{
    c.is_whitespace()
}

/// The lowercase form of a string under Unicode's rules, as `str::to_lowercase`
/// computes it.
pub uninterp spec fn unicode_lowercase(s: Seq<char>) -> Seq<char>;

/// `str::to_lowercase`: the Unicode lowercase form of a string. Its result is
/// named, not stated: the Unicode case tables are not written out here.
#[verifier::external_body]
pub(crate) fn to_lowercase(s: &str) -> (r: String)
    ensures
        r@ == unicode_lowercase(s@),
{
    s.to_lowercase()
}

/// The sequence without its leading whitespace.
pub open spec fn trim_start_ws(s: Seq<char>) -> Seq<char>
    decreases s.len(),
{
    if s.len() > 0 && unicode_white_space(s[0]) {
        trim_start_ws(s.drop_first())
    } else {
        s
    }
}

/// The sequence without its trailing whitespace.
pub open spec fn trim_end_ws(s: Seq<char>) -> Seq<char>
    decreases s.len(),
{
    if s.len() > 0 && unicode_white_space(s.last()) {
        trim_end_ws(s.drop_last())
    } else {
        s
    }
}

/// `str::trim`: without leading and trailing Unicode whitespace.
pub open spec fn trim_spec(s: Seq<char>) -> Seq<char> {
    trim_end_ws(trim_start_ws(s))
}

/// Removes leading and trailing whitespace, as `str::trim` does: whitespace is
/// what `char::is_whitespace` reports.
pub fn trim(s: &[char]) -> (r: Vec<char>)
    ensures
        r@ == trim_spec(s@),
{
    let n = s.len();
    let mut a: usize = 0;
    assert(s@.skip(0) =~= s@);
    while a < n && is_whitespace(s[a])
        invariant
            a <= n == s@.len(),
            trim_start_ws(s@) == trim_start_ws(s@.skip(a as int)),
        decreases n - a,
    {
        assert(s@.skip(a as int).drop_first() =~= s@.skip(a + 1));
        a = a + 1;
    }
    let ghost start = s@.skip(a as int);
    assert(trim_start_ws(s@) == start);
    let mut b: usize = n;
    while b > a && is_whitespace(s[b - 1])
        invariant
            a <= b <= n == s@.len(),
            start == s@.subrange(a as int, n as int),
            trim_end_ws(start) == trim_end_ws(s@.subrange(a as int, b as int)),
        decreases b - a,
    {
        assert(s@.subrange(a as int, b as int).drop_last() =~= s@.subrange(a as int, b - 1));
        b = b - 1;
    }
    let mut out: Vec<char> = Vec::new();
    let mut i: usize = a;
    while i < b
        invariant
            a <= i <= b <= n == s@.len(),
            out@ =~= s@.subrange(a as int, i as int),
        decreases b - i,
    {
        out.push(s[i]);
        i = i + 1;
    }
    out
}

/// ASCII lowercase of one character (`char::to_ascii_lowercase`), as a code point.
pub open spec fn ascii_lower(c: char) -> u32 {
    if 'A' <= c && c <= 'Z' {
        (c as u32 + 32) as u32
    } else {
        c as u32
    }
}

/// `str::eq_ignore_ascii_case`: equal lengths, and equal characters once ASCII
/// letters are lowercased.
pub open spec fn eq_ignore_ascii_case_spec(a: Seq<char>, b: Seq<char>) -> bool {
    a.len() == b.len() && forall|i: int| 0 <= i < a.len() ==> #[trigger] ascii_lower(a[i]) == ascii_lower(b[i])
}

fn ascii_lower_code(c: char) -> (r: u32)
    ensures
        r == ascii_lower(c),
{
    if 'A' <= c && c <= 'Z' {
        c as u32 + 32
    } else {
        c as u32
    }
}

/// Compares two strings ignoring the case of ASCII letters.
pub fn eq_ignore_ascii_case(a: &[char], b: &[char]) -> (r: bool)
    ensures
        r == eq_ignore_ascii_case_spec(a@, b@),
{
    if a.len() != b.len() {
        return false;
    }
    let mut i: usize = 0;
    while i < a.len()
        invariant
            i <= a@.len() == b@.len(),
            forall|m: int| 0 <= m < i ==> #[trigger] ascii_lower(a@[m]) == ascii_lower(b@[m]),
        decreases a@.len() - i,
    {
        if ascii_lower_code(a[i]) != ascii_lower_code(b[i]) {
            return false;
        }
        i = i + 1;
    }
    true
}

/// Lexicographic order on character sequences (code point by code point, a
/// proper prefix first): the order of `str`'s `Ord`.
pub open spec fn lex_le(a: Seq<char>, b: Seq<char>) -> bool
    decreases a.len(),
{
    if a.len() == 0 {
        true
    } else if b.len() == 0 {
        false
    } else if a[0] != b[0] {
        a[0] < b[0]
    } else {
        lex_le(a.drop_first(), b.drop_first())
    }
}

/// Compares two character sequences lexicographically.
pub fn lex_le_exec(a: &[char], b: &[char]) -> (r: bool)
    ensures
        r == lex_le(a@, b@),
{
    let mut i: usize = 0;
    assert(a@.skip(0) =~= a@);
    assert(b@.skip(0) =~= b@);
    while i < a.len() && i < b.len() && a[i] == b[i]
        invariant
            i <= a@.len(),
            i <= b@.len(),
            lex_le(a@, b@) == lex_le(a@.skip(i as int), b@.skip(i as int)),
        decreases a@.len() - i,
    {
        assert(a@.skip(i as int).drop_first() =~= a@.skip(i + 1));
        assert(b@.skip(i as int).drop_first() =~= b@.skip(i + 1));
        i = i + 1;
    }
    if i == a.len() {
        true
    } else if i == b.len() {
        false
    } else {
        a[i] < b[i]
    }
}

/// `lex_le` is a total order: reflexive, total, antisymmetric and transitive.
pub proof fn lemma_lex_le_total_order(a: Seq<char>, b: Seq<char>, c: Seq<char>)
    ensures
        lex_le(a, a),
        lex_le(a, b) || lex_le(b, a),
        lex_le(a, b) && lex_le(b, a) ==> a == b,
        lex_le(a, b) && lex_le(b, c) ==> lex_le(a, c),
    decreases a.len(),
{
    if a.len() > 0 && b.len() > 0 && c.len() > 0 {
        lemma_lex_le_total_order(a.drop_first(), b.drop_first(), c.drop_first());
    } else if a.len() > 0 && b.len() > 0 {
        lemma_lex_le_total_order(a.drop_first(), b.drop_first(), a.drop_first());
    } else if a.len() > 0 {
        lemma_lex_le_total_order(a.drop_first(), a.drop_first(), a.drop_first());
    }
    if lex_le(a, b) && lex_le(b, a) {
        if a.len() > 0 {
            assert(a =~= seq![a[0]] + a.drop_first());
            assert(b =~= seq![b[0]] + b.drop_first());
        } else {
            assert(b.len() == 0);
            assert(a =~= b);
        }
    }
}

/// Joins the parts with `sep` between consecutive parts.
pub open spec fn join_spec(parts: Seq<Seq<char>>, sep: char) -> Seq<char>
    decreases parts.len(),
{
    if parts.len() == 0 {
        Seq::empty()
    } else if parts.len() == 1 {
        parts[0]
    } else {
        join_spec(parts.drop_last(), sep).push(sep) + parts.last()
    }
}

/// `[S]::join`: the parts with `sep` between consecutive parts.
pub fn join_chars(parts: &Vec<Vec<char>>, sep: char) -> (r: Vec<char>)
    ensures
        r@ == join_spec(parts@.map_values(|p: Vec<char>| p@), sep),
{
    let ghost views = parts@.map_values(|p: Vec<char>| p@);
    let mut out: Vec<char> = Vec::new();
    let mut i: usize = 0;
    while i < parts.len()
        invariant
            i <= parts@.len(),
            views == parts@.map_values(|p: Vec<char>| p@),
            out@ == join_spec(views.take(i as int), sep),
        decreases parts@.len() - i,
    {
        let ghost before = out@;
        if i > 0 {
            out.push(sep);
        }
        let part = &parts[i];
        let mut t: usize = 0;
        while t < part.len()
            invariant
                t <= part@.len(),
                out@ == (if i > 0 { before.push(sep) } else { before }) + part@.take(t as int),
            decreases part@.len() - t,
        {
            out.push(part[t]);
            assert(part@.take(t as int).push(part@[t as int]) =~= part@.take(t + 1));
            t = t + 1;
        }
        assert(part@.take(t as int) =~= part@);
        assert(views.take(i + 1).drop_last() =~= views.take(i as int));
        if i == 0 {
            assert(views.take(1) =~= seq![part@]);
        }
        assert(out@ =~= join_spec(views.take(i + 1), sep));
        i = i + 1;
    }
    assert(views.take(parts@.len() as int) =~= views);
    out
}

/// Splits at each occurrence of `sep`, as `str::split` with a character does:
/// `n` separators give `n + 1` parts, some of them possibly empty.
pub open spec fn split_spec(s: Seq<char>, sep: char) -> Seq<Seq<char>>
    decreases s.len(),
{
    if s.len() == 0 {
        seq![Seq::empty()]
    } else {
        let init = split_spec(s.drop_last(), sep);
        if s.last() == sep {
            init.push(Seq::empty())
        } else {
            init.update(init.len() - 1, init.last().push(s.last()))
        }
    }
}

/// A split has at least one part.
pub proof fn lemma_split_nonempty(s: Seq<char>, sep: char)
    ensures
        split_spec(s, sep).len() >= 1,
    decreases s.len(),
{
    if s.len() > 0 {
        lemma_split_nonempty(s.drop_last(), sep);
    }
}

/// Appending characters other than `sep` extends the last part of the split.
proof fn lemma_split_append_free(s: Seq<char>, t: Seq<char>, sep: char)
    requires
        !t.contains(sep),
    ensures
        split_spec(s + t, sep) == split_spec(s, sep).update(
            split_spec(s, sep).len() - 1,
            split_spec(s, sep).last() + t,
        ),
    decreases t.len(),
{
    lemma_split_nonempty(s, sep);
    if t.len() == 0 {
        assert(s + t =~= s);
        assert(split_spec(s, sep).last() + t =~= split_spec(s, sep).last());
        assert(split_spec(s, sep).update(split_spec(s, sep).len() - 1, split_spec(s, sep).last())
            =~= split_spec(s, sep));
    } else {
        let t0 = t.drop_last();
        let c = t.last();
        assert(!t0.contains(sep)) by {
            if t0.contains(sep) {
                let i = choose|i: int| 0 <= i < t0.len() && t0[i] == sep;
                assert(t[i] == sep);
            }
        }
        assert(t[t.len() - 1] == c);
        lemma_split_append_free(s, t0, sep);
        assert((s + t).drop_last() =~= s + t0);
        assert((s + t).last() == c);
        assert(split_spec(s, sep).last() + t =~= (split_spec(s, sep).last() + t0).push(c));
    }
}

/// Splitting a join of parts that hold no `sep` gives the parts back.
proof fn lemma_split_join(parts: Seq<Seq<char>>, sep: char)
    requires
        parts.len() > 0,
        forall|i: int| 0 <= i < parts.len() ==> !(#[trigger] parts[i]).contains(sep),
    ensures
        split_spec(join_spec(parts, sep), sep) == parts,
    decreases parts.len(),
{
    if parts.len() == 1 {
        lemma_split_append_free(Seq::empty(), parts[0], sep);
        assert(Seq::<char>::empty() + parts[0] =~= parts[0]);
        assert(Seq::<char>::empty() + parts[0] =~= parts[0]);
        assert(split_spec(Seq::<char>::empty(), sep).update(0, Seq::<char>::empty() + parts[0]) =~= parts);
    } else {
        let init = parts.drop_last();
        assert forall|i: int| 0 <= i < init.len() implies !(#[trigger] init[i]).contains(sep) by {
            assert(init[i] == parts[i]);
        }
        lemma_split_join(init, sep);
        let j = join_spec(init, sep);
        assert(parts.last() == parts[parts.len() - 1]);
        lemma_split_append_free(j.push(sep), parts.last(), sep);
        assert(j.push(sep).drop_last() =~= j);
        assert(split_spec(j.push(sep), sep) == init.push(Seq::empty()));
        assert(Seq::<char>::empty() + parts.last() =~= parts.last());
        assert(init.push(Seq::empty()).update(init.len() as int, parts.last()) =~= parts);
    }
}

/// Joining with `sep` loses nothing when no part is empty or holds `sep`: equal
/// joins come from equal parts.
pub proof fn lemma_join_injective(x: Seq<Seq<char>>, y: Seq<Seq<char>>, sep: char)
    requires
        forall|i: int| 0 <= i < x.len() ==> (#[trigger] x[i]).len() > 0 && !x[i].contains(sep),
        forall|i: int| 0 <= i < y.len() ==> (#[trigger] y[i]).len() > 0 && !y[i].contains(sep),
        join_spec(x, sep) == join_spec(y, sep),
    ensures
        x == y,
{
    if x.len() > 0 && y.len() > 0 {
        lemma_split_join(x, sep);
        lemma_split_join(y, sep);
    } else if x.len() > 0 || y.len() > 0 {
        let z = if x.len() > 0 { x } else { y };
        lemma_join_nonempty(z, sep);
    }
}

/// The join of at least one nonempty part is not empty.
proof fn lemma_join_nonempty(parts: Seq<Seq<char>>, sep: char)
    requires
        parts.len() > 0,
        forall|i: int| 0 <= i < parts.len() ==> (#[trigger] parts[i]).len() > 0,
    ensures
        join_spec(parts, sep).len() > 0,
{
    if parts.len() == 1 {
        assert(parts[0].len() > 0);
    } else {
        assert(parts[parts.len() - 1].len() > 0);
    }
}

/// No part of a split holds the separator.
pub proof fn lemma_split_parts_free(s: Seq<char>, sep: char)
    ensures
        forall|i: int| 0 <= i < split_spec(s, sep).len() ==> !(#[trigger] split_spec(s, sep)[i]).contains(sep),
    decreases s.len(),
{
    if s.len() > 0 {
        lemma_split_parts_free(s.drop_last(), sep);
        lemma_split_nonempty(s.drop_last(), sep);
        let init = split_spec(s.drop_last(), sep);
        let r = split_spec(s, sep);
        assert forall|i: int| 0 <= i < r.len() implies !(#[trigger] r[i]).contains(sep) by {
            if s.last() == sep {
                if i < init.len() {
                    assert(r[i] == init[i]);
                } else {
                    assert(r[i] =~= Seq::<char>::empty());
                }
            } else if i < init.len() - 1 {
                assert(r[i] == init[i]);
            } else {
                let l = init.last().push(s.last());
                assert(r[i] == l);
                if l.contains(sep) {
                    let k = choose|k: int| 0 <= k < l.len() && l[k] == sep;
                    assert(init.last()[k] == sep);
                    assert(init[init.len() - 1].contains(sep));
                }
            }
        }
    }
}

/// A sequence without the separator splits into itself alone.
pub proof fn lemma_split_without_sep(s: Seq<char>, sep: char)
    requires
        !s.contains(sep),
    ensures
        split_spec(s, sep) == seq![s],
{
    lemma_split_append_free(Seq::empty(), s, sep);
    assert(Seq::<char>::empty() + s =~= s);
    assert(split_spec(Seq::<char>::empty(), sep).update(0, Seq::<char>::empty() + s) =~= seq![s]);
}

} // verus!
