//! The chart cache: per user, the raw language totals and the charts already
//! drawn for each combination of excludes and flags.
use vstd::prelude::*;
use vstd::string::StringSliceAdditionalSpecFns;
use crate::text::{chars_of, to_lowercase, unicode_lowercase, push_char};
use crate::totals::{ByteTotals, sum_bytes, chars_eq};
use crate::stats::{
    LanguageStat, StatsError, apply_excludes, aggregate_top_six, exclude_cache_key, exclude_cache_key_spec,
    string_views, remaining_after, normalized_excludes, lemma_remaining_after, stat_views, top_six_fits,
    top_six_sum_fits,
};
use crate::ranking::is_top_ranking;
use crate::models::LanguageTotals;
use std::collections::hash_map::DefaultHasher;
use std::hash::{Hash, Hasher};

verus! {

/// A cached chart is refreshed after this many seconds.
pub const CACHE_TTL_SECS: i64 = 1800;

/// A point in time: seconds since the Unix epoch and the nanoseconds within
/// that second.
#[derive(Clone, Copy, Debug, PartialEq, Eq, Structural)]
pub struct Timestamp {
    pub secs: i64,
    pub nanos: u32,
}

/// Nanoseconds since the epoch.
pub open spec fn total_nanos(t: Timestamp) -> int {
    t.secs * 1_000_000_000 + t.nanos
}

/// `DateTime::timestamp_nanos_opt`: the nanoseconds since the epoch, when they
/// fit in an `i64`.
pub fn timestamp_nanos_opt(t: Timestamp) -> (r: Option<i64>)
    ensures
        r == if i64::MIN <= total_nanos(t) <= i64::MAX {
            Some(total_nanos(t) as i64)
        } else {
            None::<i64>
        },
{
    let n: i128 = t.secs as i128 * 1_000_000_000 + t.nanos as i128;
    if n >= i64::MIN as i128 && n <= i64::MAX as i128 {
        Some(n as i64)
    } else {
        None
    }
}

/// The lowercase hexadecimal digit for `d < 16`.
pub open spec fn hex_digit_char(d: int) -> char {
    if d < 10 {
        crate::svg::digit_char(d)
    } else if d == 10 {
        'a'
    } else if d == 11 {
        'b'
    } else if d == 12 {
        'c'
    } else if d == 13 {
        'd'
    } else if d == 14 {
        'e'
    } else {
        'f'
    }
}

/// Lowercase hexadecimal without leading zeros (`{:x}`).
pub open spec fn hex_spec(n: nat) -> Seq<char>
    decreases n,
{
    if n < 16 {
        seq![hex_digit_char(n as int)]
    } else {
        hex_spec(n / 16).push(hex_digit_char((n % 16) as int))
    }
}

fn hex_digit(d: u64) -> (c: char)
    requires
        d < 16,
    ensures
        c == hex_digit_char(d as int),
{
    if d < 10 {
        if d == 0 {
            '0'
        } else if d == 1 {
            '1'
        } else if d == 2 {
            '2'
        } else if d == 3 {
            '3'
        } else if d == 4 {
            '4'
        } else if d == 5 {
            '5'
        } else if d == 6 {
            '6'
        } else if d == 7 {
            '7'
        } else if d == 8 {
            '8'
        } else {
            '9'
        }
    } else if d == 10 {
        'a'
    } else if d == 11 {
        'b'
    } else if d == 12 {
        'c'
    } else if d == 13 {
        'd'
    } else if d == 14 {
        'e'
    } else {
        'f'
    }
}

fn push_hex(out: &mut String, n: u64)
    ensures
        final(out)@ == old(out)@ + hex_spec(n as nat),
    decreases n,
{
    if n < 16 {
        push_char(out, hex_digit(n));
        assert(old(out)@.push(hex_digit_char(n as int)) =~= old(out)@ + seq![hex_digit_char(n as int)]);
    } else {
        push_hex(out, n / 16);
        push_char(out, hex_digit(n % 16));
        assert(old(out)@ + hex_spec((n / 16) as nat).push(hex_digit_char((n % 16) as int)) =~= (old(out)@
            + hex_spec((n / 16) as nat)).push(hex_digit_char((n % 16) as int)));
    }
}

/// An entity tag: the digest in lowercase hexadecimal, in double quotes.
pub open spec fn etag_spec(digest: u64) -> Seq<char> {
    seq!['"'] + hex_spec(digest as nat) + seq!['"']
}

/// Writes a digest as an entity tag.
pub fn format_etag(digest: u64) -> (r: String)
    ensures
        r@ == etag_spec(digest),
{
    let mut s = String::new();
    push_char(&mut s, '"');
    push_hex(&mut s, digest);
    push_char(&mut s, '"');
    assert(s@ =~= etag_spec(digest));
    s
}

/// `<[u8] as Hash>::hash`: feeds a byte slice to the hasher. Nothing is stated
/// of the hasher's state.
#[verifier::external_body]
fn hash_bytes(h: &mut DefaultHasher, data: &[u8]) {
    data.hash(h)
}

/// `<Option<i64> as Hash>::hash`: feeds an optional integer to the hasher.
/// Nothing is stated of the hasher's state.
#[verifier::external_body]
fn hash_opt_i64(h: &mut DefaultHasher, v: Option<i64>) {
    v.hash(h)
}

/// `<str as Hash>::hash`: feeds a string to the hasher. Nothing is stated of
/// the hasher's state.
#[verifier::external_body]
fn hash_str(h: &mut DefaultHasher, s: &str) {
    s.hash(h)
}

/// The entity tag of a rendered chart: the image bytes, the update time (in
/// nanoseconds, when they fit in an `i64`) and the variant key are hashed with
/// std's `DefaultHasher`, and the digest is written as a quoted hex number.
pub fn compute_etag(image: &[u8], updated: Timestamp, exclude_key: &str) -> (r: String)
    ensures
        exists|d: u64| r@ == etag_spec(d),
{
    let mut h = DefaultHasher::new();
    hash_bytes(&mut h, image);
    hash_opt_i64(&mut h, timestamp_nanos_opt(updated));
    hash_str(&mut h, exclude_key);
    let d = h.finish();
    format_etag(d)
}

/// Whether a request already holds the chart it asks for: it sent an
/// `If-None-Match` header whose bytes are exactly those of the chart's ETag.
pub fn is_not_modified(if_none_match: Option<&[u8]>, etag: &str) -> (r: bool)
    ensures
        r == (if_none_match matches Some(h) && h@ == etag.spec_bytes()),
{
    let h = match if_none_match {
        Some(h) => h,
        None => return false,
    };
    let e = etag.as_bytes();
    if h.len() != e.len() {
        return false;
    }
    let mut i: usize = 0;
    while i < h.len()
        invariant
            i <= h@.len() == e@.len(),
            if_none_match == Some(h),
            e@ == etag.spec_bytes(),
            forall|j: int| 0 <= j < i ==> h@[j] == e@[j],
        decreases h@.len() - i,
    {
        if h[i] != e[i] {
            assert(h@[i as int] != e@[i as int]);
            return false;
        }
        i = i + 1;
    }
    assert(h@ =~= e@);
    true
}

/// A rendered chart.
#[derive(Clone, Debug)]
pub struct CacheVariant {
    pub image_svg: Vec<u8>,
    pub language_stats: Vec<LanguageStat>,
    pub etag: String,
}

/// Why a chart cannot be rendered from the cached totals.
#[derive(Debug, Clone, Copy, PartialEq, Eq, Structural)]
pub enum CacheError {
    /// Organisation repositories are left out, and no personal repository has
    /// any language.
    NoPersonalData,
    /// The languages cannot be charted.
    Stats(StatsError),
    /// The bytes of the six languages to chart sum to more than `u64::MAX`.
    TotalsOverflow,
}

impl CacheError {
    /// The message the error is reported with.
    pub fn message(&self) -> (r: &'static str)
        ensures
            r@ == match self {
                CacheError::NoPersonalData => "no personal repository language data found"@,
                CacheError::Stats(StatsError::NoLanguageData) => "no language data to chart"@,
                CacheError::Stats(StatsError::NoLanguagesRemain) => "no languages remain after applying excludes"@,
                CacheError::TotalsOverflow => "attempt to add with overflow"@,
            },
    {
        match self {
            CacheError::NoPersonalData => "no personal repository language data found",
            CacheError::Stats(e) => e.message(),
            CacheError::TotalsOverflow => "attempt to add with overflow",
        }
    }
}

/// The text of a flag in a variant key.
pub open spec fn flag_text(b: bool) -> Seq<char> {
    if b {
        "true"@
    } else {
        "false"@
    }
}

/// The key of one chart variant: the exclude cache key followed by the three
/// flags.
pub open spec fn variant_cache_key_spec(excludes: Seq<Seq<char>>, show_org: bool, show_username: bool, minimal: bool) -> Seq<char> {
    exclude_cache_key_spec(excludes) + ";org="@ + flag_text(show_org) + ";username="@ + flag_text(show_username)
        + ";minimal="@ + flag_text(minimal)
}

fn append_flag(s: &mut String, b: bool)
    ensures
        final(s)@ == old(s)@ + flag_text(b),
{
    if b {
        s.append("true");
    } else {
        s.append("false");
    }
}

/// The key under which the chart for these excludes and flags is cached.
pub fn variant_cache_key(excludes: &[String], show_org: bool, show_username: bool, minimal: bool) -> (r: String)
    ensures
        r@ == variant_cache_key_spec(string_views(excludes@), show_org, show_username, minimal),
{
    let mut s = exclude_cache_key(excludes);
    s.append(";org=");
    append_flag(&mut s, show_org);
    s.append(";username=");
    append_flag(&mut s, show_username);
    s.append(";minimal=");
    append_flag(&mut s, minimal);
    s
}

/// The value stored under the first entry with key `key`.
pub open spec fn lookup<V>(entries: Seq<(Seq<char>, V)>, key: Seq<char>) -> Option<V>
    decreases entries.len(),
{
    if entries.len() == 0 {
        None
    } else if entries[0].0 == key {
        Some(entries[0].1)
    } else {
        lookup(entries.drop_first(), key)
    }
}

/// The index of the first entry with key `key`, or -1.
pub open spec fn first_index<V>(entries: Seq<(Seq<char>, V)>, key: Seq<char>) -> int
    decreases entries.len(),
{
    if entries.len() == 0 {
        -1
    } else if entries[0].0 == key {
        0
    } else {
        let r = first_index(entries.drop_first(), key);
        if r >= 0 {
            r + 1
        } else {
            -1
        }
    }
}

proof fn lemma_first_index<V>(entries: Seq<(Seq<char>, V)>, key: Seq<char>)
    ensures
        -1 <= first_index(entries, key) < entries.len(),
        first_index(entries, key) >= 0 ==> entries[first_index(entries, key)].0 == key && lookup(entries, key)
            == Some(entries[first_index(entries, key)].1),
        first_index(entries, key) >= 0 ==> forall|m: int| 0 <= m < first_index(entries, key) ==> #[trigger] entries[m].0 != key,
        first_index(entries, key) == -1 <==> lookup(entries, key) is None,
        first_index(entries, key) == -1 ==> forall|m: int| 0 <= m < entries.len() ==> #[trigger] entries[m].0 != key,
    decreases entries.len(),
{
    if entries.len() > 0 && entries[0].0 != key {
        let t = entries.drop_first();
        lemma_first_index(t, key);
        assert forall|m: int| 1 <= m < entries.len() implies entries[m] == t[m - 1] by {}
    }
}

/// The entries after storing `value` under `key`: the first entry with that
/// key is replaced, otherwise one is appended.
pub open spec fn store<V>(entries: Seq<(Seq<char>, V)>, key: Seq<char>, value: V) -> Seq<(Seq<char>, V)> {
    let i = first_index(entries, key);
    if i >= 0 {
        entries.update(i, (key, value))
    } else {
        entries.push((key, value))
    }
}

/// The character views of keyed variants.
pub open spec fn variant_views(v: Seq<(String, CacheVariant)>) -> Seq<(Seq<char>, CacheVariant)> {
    v.map_values(|e: (String, CacheVariant)| (e.0@, e.1))
}

/// What the cache knows of a chart request: it is drawn already, or the
/// languages to draw it from.
pub enum VariantPlan {
    /// Drawn already, under this key.
    Cached(String),
    /// To be drawn from these languages and stored under this key.
    Render { key: String, stats: Vec<LanguageStat> },
}

/// The cached data of one user.
#[derive(Debug)]
pub struct UserCache {
    /// Totals including organisation repositories.
    pub raw_totals: ByteTotals,
    /// Totals of the user's own repositories only.
    pub raw_totals_personal: ByteTotals,
    pub last_updated: Timestamp,
    pub variants: Vec<(String, CacheVariant)>,
}

/// The totals a chart is drawn from: with organisation repositories or without.
pub open spec fn scope_totals(c: UserCache, show_org: bool) -> Seq<(Seq<char>, u64)> {
    if show_org {
        c.raw_totals@
    } else {
        c.raw_totals_personal@
    }
}

impl UserCache {
    /// A cache of freshly fetched totals, with the default chart (all
    /// repositories, no excludes, username shown, full card) planned: the
    /// cache, which holds no chart yet, the key to store that chart under, and
    /// the languages to draw it from. Fails as `render_variant` does for that
    /// chart: `NoLanguageData` with no languages, `TotalsOverflow` when the six
    /// to chart sum to more than `u64::MAX`.
    pub fn from_refresh(totals: LanguageTotals, last_updated: Timestamp) -> (r: Result<(Self, String, Vec<LanguageStat>), CacheError>)
        ensures
            r is Ok <==> totals.with_org@.len() > 0 && top_six_sum_fits(totals.with_org@),
            match r {
                Ok((c, key, stats)) => {
                    &&& c.raw_totals@ == totals.with_org@
                    &&& c.raw_totals_personal@ == totals.personal_only@
                    &&& c.last_updated == last_updated
                    &&& c.variants@.len() == 0
                    &&& key@ == variant_cache_key_spec(Seq::empty(), true, true, false)
                    &&& is_top_ranking(totals.with_org@, stat_views(stats@), 6)
                    &&& forall|i: int| 0 <= i < stats@.len() ==> #[trigger] stats@[i].total_bytes == sum_bytes(stat_views(stats@))
                },
                Err(e) => {
                    ||| e == CacheError::Stats(StatsError::NoLanguageData) && totals.with_org@.len() == 0
                    ||| e == CacheError::TotalsOverflow && totals.with_org@.len() > 0
                },
            },
    {
        let cache = UserCache {
            raw_totals: totals.with_org,
            raw_totals_personal: totals.personal_only,
            last_updated,
            variants: Vec::new(),
        };
        let none: Vec<String> = Vec::new();
        proof {
            assert(string_views(none@) =~= Seq::<Seq<char>>::empty());
            assert(normalized_excludes(Seq::<Seq<char>>::empty()) =~= Seq::<Seq<char>>::empty());
            lemma_remaining_after(cache.raw_totals@, Seq::empty());
            lemma_first_index(variant_views(cache.variants@), variant_cache_key_spec(Seq::empty(), true, true, false));
            assert(variant_views(cache.variants@) =~= Seq::<(Seq<char>, CacheVariant)>::empty());
        }
        match cache.render_variant(none.as_slice(), true, true, false) {
            Ok(VariantPlan::Render { key, stats }) => Ok((cache, key, stats)),
            // The new cache holds no chart, so none is found drawn already.
            Ok(VariantPlan::Cached(_)) => Err(CacheError::TotalsOverflow),
            Err(e) => Err(e),
        }
    }

    /// Whether more than `CACHE_TTL_SECS` seconds have passed between the last
    /// update and `now`.
    pub fn is_stale(&self, now: Timestamp) -> (r: bool)
        ensures
            r == (total_nanos(now) - total_nanos(self.last_updated) > CACHE_TTL_SECS * 1_000_000_000),
    {
        let a: i128 = now.secs as i128 * 1_000_000_000 + now.nanos as i128;
        let b: i128 = self.last_updated.secs as i128 * 1_000_000_000 + self.last_updated.nanos as i128;
        a - b > 1_800_000_000_000
    }

    /// The totals of the requested scope; without organisation repositories
    /// and no personal data the error is `NoPersonalData`.
    fn totals_for_scope(&self, show_org: bool) -> (r: Result<ByteTotals, CacheError>)
        ensures
            match r {
                Ok(t) => t@ == scope_totals(*self, show_org),
                Err(e) => e == CacheError::NoPersonalData,
            },
            r is Err <==> (!show_org && self.raw_totals_personal@.len() == 0),
    {
        if show_org {
            Ok(self.raw_totals.duplicate())
        } else if self.raw_totals_personal.is_empty() {
            Err(CacheError::NoPersonalData)
        } else {
            Ok(self.raw_totals_personal.duplicate())
        }
    }

    /// The index of the variant stored under `key`.
    fn find_variant(&self, key: &str) -> (r: Option<usize>)
        ensures
            match r {
                Some(i) => i as int == first_index(variant_views(self.variants@), key@),
                None => first_index(variant_views(self.variants@), key@) == -1,
            },
    {
        let ghost vv = variant_views(self.variants@);
        proof {
            lemma_first_index(vv, key@);
        }
        let kc = chars_of(key);
        let mut i: usize = 0;
        while i < self.variants.len()
            invariant
                i <= self.variants@.len(),
                vv == variant_views(self.variants@),
                kc@ == key@,
                forall|m: int| 0 <= m < i ==> #[trigger] vv[m].0 != key@,
            decreases self.variants@.len() - i,
        {
            let c = chars_of(self.variants[i].0.as_str());
            assert(c@ == vv[i as int].0);
            if chars_eq(&c, &kc) {
                proof {
                    lemma_first_index(vv, key@);
                    if first_index(vv, key@) != i {
                        assert(vv[first_index(vv, key@)].0 == key@);
                    }
                }
                return Some(i);
            }
            i = i + 1;
        }
        proof {
            lemma_first_index(vv, key@);
            if first_index(vv, key@) >= 0 {
                assert(vv[first_index(vv, key@)].0 == key@);
            }
        }
        None
    }

    /// The chart already drawn for these excludes and flags, if any.
    pub fn get_variant(&self, excludes: &[String], show_org: bool, show_username: bool, minimal: bool) -> (r: Option<&CacheVariant>)
        ensures
            ({
                let l = lookup(
                    variant_views(self.variants@),
                    variant_cache_key_spec(string_views(excludes@), show_org, show_username, minimal),
                );
                match r {
                    Some(v) => l == Some(*v),
                    None => l is None,
                }
            }),
    {
        let key = variant_cache_key(excludes, show_org, show_username, minimal);
        proof {
            lemma_first_index(variant_views(self.variants@), key@);
        }
        match self.find_variant(key.as_str()) {
            Some(i) => Some(&self.variants[i].1),
            None => None,
        }
    }

    /// Plans the chart for a request, which the caller then draws and stores
    /// with `insert_variant`: the key of a chart drawn already, or the top six
    /// languages (after excludes) of the requested scope together with the key
    /// to store the new chart under. Without organisation repositories and with
    /// no personal data the error is `NoPersonalData`; then come the errors of
    /// `apply_excludes` and `aggregate_top_six`, and `TotalsOverflow` when the
    /// six to chart sum to more than `u64::MAX`.
    pub fn render_variant(&self, excludes: &[String], show_org: bool, show_username: bool, minimal: bool) -> (r: Result<VariantPlan, CacheError>)
        ensures
            ({
                let key = variant_cache_key_spec(string_views(excludes@), show_org, show_username, minimal);
                let cached = lookup(variant_views(self.variants@), key) is Some;
                let scope_ok = show_org || self.raw_totals_personal@.len() > 0;
                let norm = normalized_excludes(string_views(excludes@));
                let filtered = remaining_after(scope_totals(*self, show_org), norm);
                match r {
                    Ok(VariantPlan::Cached(k)) => k@ == key && cached,
                    Ok(VariantPlan::Render { key: k, stats }) => {
                        &&& k@ == key
                        &&& !cached && scope_ok
                        &&& filtered.len() > 0 && top_six_sum_fits(filtered)
                        &&& is_top_ranking(filtered, stat_views(stats@), 6)
                        &&& forall|i: int| 0 <= i < stats@.len() ==> #[trigger] stats@[i].total_bytes == sum_bytes(stat_views(stats@))
                    },
                    Err(CacheError::NoPersonalData) => !cached && !scope_ok,
                    Err(CacheError::Stats(StatsError::NoLanguagesRemain)) => {
                        &&& !cached && scope_ok
                        &&& norm.len() > 0 && filtered.len() == 0
                    },
                    Err(CacheError::Stats(StatsError::NoLanguageData)) => {
                        &&& !cached && scope_ok
                        &&& norm.len() == 0 && filtered.len() == 0
                    },
                    Err(CacheError::TotalsOverflow) => {
                        &&& !cached && scope_ok
                        &&& filtered.len() > 0 && !top_six_sum_fits(filtered)
                    },
                }
            }),
    {
        let key = variant_cache_key(excludes, show_org, show_username, minimal);
        proof {
            lemma_first_index(variant_views(self.variants@), key@);
        }
        if self.find_variant(key.as_str()).is_some() {
            return Ok(VariantPlan::Cached(key));
        }
        let scope = match self.totals_for_scope(show_org) {
            Ok(t) => t,
            Err(e) => return Err(e),
        };
        let ghost scope_view = scope@;
        let filtered = match apply_excludes(scope, excludes) {
            Ok(t) => t,
            Err(e) => return Err(CacheError::Stats(e)),
        };
        proof {
            lemma_remaining_after(scope_view, normalized_excludes(string_views(excludes@)));
        }
        if !top_six_fits(&filtered) {
            return Err(CacheError::TotalsOverflow);
        }
        match aggregate_top_six(filtered) {
            Ok(stats) => Ok(VariantPlan::Render { key, stats }),
            Err(e) => Err(CacheError::Stats(e)),
        }
    }

    /// Stores a chart under `key`, replacing the one stored there before.
    pub fn insert_variant(&mut self, key: String, variant: CacheVariant)
        ensures
            variant_views(final(self).variants@) == store(variant_views(old(self).variants@), key@, variant),
            final(self).raw_totals@ == old(self).raw_totals@,
            final(self).raw_totals_personal@ == old(self).raw_totals_personal@,
            final(self).last_updated == old(self).last_updated,
    {
        let ghost vv = variant_views(self.variants@);
        let ghost kv = key@;
        proof {
            lemma_first_index(vv, kv);
        }
        match self.find_variant(key.as_str()) {
            Some(i) => {
                self.variants.set(i, (key, variant));
                assert(variant_views(self.variants@) =~= vv.update(i as int, (kv, variant)));
            },
            None => {
                self.variants.push((key, variant));
                assert(variant_views(self.variants@) =~= vv.push((kv, variant)));
            },
        }
    }

    /// Stores a chart drawn for `key`: its image and languages together with
    /// its ETag, computed from the image, the time of the last update and the
    /// key. The ETag is returned; nothing else changes.
    pub fn store_rendered(&mut self, key: String, image_svg: Vec<u8>, language_stats: Vec<LanguageStat>) -> (etag: String)
        ensures
            exists|d: u64| etag@ == etag_spec(d),
            variant_views(final(self).variants@) == store(
                variant_views(old(self).variants@),
                key@,
                (CacheVariant { image_svg, language_stats, etag }),
            ),
            final(self).raw_totals@ == old(self).raw_totals@,
            final(self).raw_totals_personal@ == old(self).raw_totals_personal@,
            final(self).last_updated == old(self).last_updated,
    {
        let etag = compute_etag(image_svg.as_slice(), self.last_updated, key.as_str());
        let stored = etag.clone();
        self.insert_variant(key, CacheVariant { image_svg, language_stats, etag: stored });
        etag
    }
}

/// The key a user is cached under: the username in Unicode lowercase.
pub open spec fn user_key_spec(username: Seq<char>) -> Seq<char> {
    unicode_lowercase(username)
}

/// The character views of keyed user caches.
pub open spec fn user_views(v: Seq<(String, UserCache)>) -> Seq<(Seq<char>, UserCache)> {
    v.map_values(|e: (String, UserCache)| (e.0@, e.1))
}

/// The cached data of every user seen so far.
#[derive(Debug)]
pub struct AppCache {
    pub users: Vec<(String, UserCache)>,
}

impl AppCache {
    /// No user cached.
    pub fn new() -> (r: Self)
        ensures
            r.users@.len() == 0,
    {
        AppCache { users: Vec::new() }
    }

    /// The key a user is cached under: usernames are compared in lowercase.
    pub fn cache_key(username: &str) -> (r: String)
        ensures
            r@ == user_key_spec(username@),
    {
        to_lowercase(username)
    }

    fn find_user(&self, key: &str) -> (r: Option<usize>)
        ensures
            match r {
                Some(i) => i as int == first_index(user_views(self.users@), key@),
                None => first_index(user_views(self.users@), key@) == -1,
            },
    {
        let ghost uv = user_views(self.users@);
        proof {
            lemma_first_index(uv, key@);
        }
        let kc = chars_of(key);
        let mut i: usize = 0;
        while i < self.users.len()
            invariant
                i <= self.users@.len(),
                uv == user_views(self.users@),
                kc@ == key@,
                forall|m: int| 0 <= m < i ==> #[trigger] uv[m].0 != key@,
            decreases self.users@.len() - i,
        {
            let c = chars_of(self.users[i].0.as_str());
            assert(c@ == uv[i as int].0);
            if chars_eq(&c, &kc) {
                proof {
                    lemma_first_index(uv, key@);
                    if first_index(uv, key@) != i {
                        assert(uv[first_index(uv, key@)].0 == key@);
                    }
                }
                return Some(i);
            }
            i = i + 1;
        }
        proof {
            lemma_first_index(uv, key@);
            if first_index(uv, key@) >= 0 {
                assert(uv[first_index(uv, key@)].0 == key@);
            }
        }
        None
    }

    /// The cached data of a user (usernames compared in lowercase).
    pub fn get_user(&self, username: &str) -> (r: Option<&UserCache>)
        ensures
            match r {
                Some(u) => lookup(user_views(self.users@), user_key_spec(username@)) == Some(*u),
                None => lookup(user_views(self.users@), user_key_spec(username@)) is None,
            },
    {
        let key = Self::cache_key(username);
        proof {
            lemma_first_index(user_views(self.users@), key@);
        }
        match self.find_user(key.as_str()) {
            Some(i) => Some(&self.users[i].1),
            None => None,
        }
    }

    /// Stores the cached data of a user, replacing what was stored for the
    /// same (lowercased) username.
    pub fn upsert_user(&mut self, username: &str, cache: UserCache)
        ensures
            user_views(final(self).users@) == store(user_views(old(self).users@), user_key_spec(username@), cache),
    {
        let key = Self::cache_key(username);
        let ghost uv = user_views(self.users@);
        let ghost kv = key@;
        proof {
            lemma_first_index(uv, kv);
        }
        match self.find_user(key.as_str()) {
            Some(i) => {
                self.users.set(i, (key, cache));
                assert(user_views(self.users@) =~= uv.update(i as int, (kv, cache)));
            },
            None => {
                self.users.push((key, cache));
                assert(user_views(self.users@) =~= uv.push((kv, cache)));
            },
        }
    }

    /// Stores a chart drawn for `key` in the cache of `username` (see
    /// `UserCache::store_rendered`) and returns its ETag; `None`, with nothing
    /// changed, when the user is not cached.
    pub fn store_rendered(
        &mut self,
        username: &str,
        key: String,
        image_svg: Vec<u8>,
        language_stats: Vec<LanguageStat>,
    ) -> (r: Option<String>)
        ensures
            ({
                let uk = user_key_spec(username@);
                let i = first_index(user_views(old(self).users@), uk);
                match r {
                    Some(etag) => {
                        &&& i >= 0
                        &&& exists|d: u64| etag@ == etag_spec(d)
                        &&& final(self).users@.len() == old(self).users@.len()
                        &&& forall|m: int| 0 <= m < old(self).users@.len() && m != i ==> #[trigger] final(self).users@[m] == old(self).users@[m]
                        &&& final(self).users@[i].0 == old(self).users@[i].0
                        &&& variant_views(final(self).users@[i].1.variants@) == store(
                            variant_views(old(self).users@[i].1.variants@),
                            key@,
                            (CacheVariant { image_svg, language_stats, etag }),
                        )
                        &&& final(self).users@[i].1.raw_totals@ == old(self).users@[i].1.raw_totals@
                        &&& final(self).users@[i].1.raw_totals_personal@ == old(self).users@[i].1.raw_totals_personal@
                        &&& final(self).users@[i].1.last_updated == old(self).users@[i].1.last_updated
                    },
                    None => i < 0 && final(self).users@ == old(self).users@,
                }
            }),
    {
        let uk = Self::cache_key(username);
        proof {
            lemma_first_index(user_views(self.users@), uk@);
        }
        match self.find_user(uk.as_str()) {
            Some(i) => {
                let ghost before = self.users@;
                let (name, mut cache) = self.users.remove(i);
                let etag = cache.store_rendered(key, image_svg, language_stats);
                self.users.insert(i, (name, cache));
                assert forall|m: int| 0 <= m < before.len() && m != i implies #[trigger] self.users@[m] == before[m] by {
                    if m < i {
                    } else {
                    }
                }
                Some(etag)
            },
            None => None,
        }
    }
}

/// A read after a write gives back what was written, and leaves other keys as
/// they were: after storing `value` under `key`, looking up `key` finds
/// `value`, and looking up any other key finds what it found before.
pub proof fn lookup_after_store<V>(entries: Seq<(Seq<char>, V)>, key: Seq<char>, value: V, other: Seq<char>)
    ensures
        lookup(store(entries, key, value), key) == Some(value),
        other != key ==> lookup(store(entries, key, value), other) == lookup(entries, other),
{
    let s = store(entries, key, value);
    lemma_first_index(entries, key);
    lemma_first_index(s, key);
    lemma_first_index(entries, other);
    lemma_first_index(s, other);
    let i = first_index(entries, key);
    // The first entry with `key` is the stored one.
    if i >= 0 {
        assert(s[i].0 == key);
        if first_index(s, key) != i {
            if first_index(s, key) >= 0 && first_index(s, key) < i {
                assert(s[first_index(s, key)] == entries[first_index(s, key)]);
            } else {
                assert(s[i].0 == key);
            }
        }
    } else {
        assert(s[entries.len() as int].0 == key);
        if first_index(s, key) >= 0 && first_index(s, key) < entries.len() {
            assert(s[first_index(s, key)] == entries[first_index(s, key)]);
        }
    }
    if other != key {
        let j = first_index(entries, other);
        let js = first_index(s, other);
        if j >= 0 {
            assert(s[j] == entries[j]);
            if js != j {
                if js >= 0 && js < j {
                    assert(s[js].0 == other);
                    assert(js != i || i < 0);
                    assert(s[js] == entries[js]);
                } else {
                    assert(s[j].0 == other);
                }
            }
        } else {
            if js >= 0 {
                if js < entries.len() {
                    assert(s[js].0 == other);
                    if i >= 0 && js == i {
                        assert(s[js].0 == key);
                    }
                    assert(s[js] == entries[js]);
                } else {
                    assert(s[js].0 == key);
                }
            }
        }
    }
}

/// After storing a user's data, looking the user up under any spelling of the
/// name that lowercases the same way finds that data.
pub proof fn get_user_after_upsert(users: Seq<(Seq<char>, UserCache)>, username: Seq<char>, cache: UserCache, other: Seq<char>)
    ensures
        lookup(store(users, user_key_spec(username), cache), user_key_spec(username)) == Some(cache),
        user_key_spec(other) != user_key_spec(username) ==> lookup(store(users, user_key_spec(username), cache), user_key_spec(other))
            == lookup(users, user_key_spec(other)),
{
    lookup_after_store(users, user_key_spec(username), cache, user_key_spec(other));
}

/// Requests that list the same excludes in another order are served the same
/// cached chart: their variant keys are equal.
pub proof fn variant_key_ignores_exclude_order(
    a: Seq<Seq<char>>,
    b: Seq<Seq<char>>,
    show_org: bool,
    show_username: bool,
    minimal: bool,
)
    requires
        a.to_multiset() == b.to_multiset(),
    ensures
        variant_cache_key_spec(a, show_org, show_username, minimal) == variant_cache_key_spec(b, show_org, show_username, minimal),
{
    crate::stats::exclude_cache_key_order_independent(a, b);
}

/// Charts drawn with different flags are never stored under one key: for the
/// same excludes, variant keys that differ in any flag differ.
pub proof fn variant_keys_separate_flags(
    excludes: Seq<Seq<char>>,
    org1: bool,
    username1: bool,
    minimal1: bool,
    org2: bool,
    username2: bool,
    minimal2: bool,
)
    requires
        org1 != org2 || username1 != username2 || minimal1 != minimal2,
    ensures
        variant_cache_key_spec(excludes, org1, username1, minimal1) != variant_cache_key_spec(excludes, org2, username2, minimal2),
{
    reveal_strlit(";org=");
    reveal_strlit(";username=");
    reveal_strlit(";minimal=");
    reveal_strlit("true");
    reveal_strlit("false");
    let e = exclude_cache_key_spec(excludes);
    let k1 = variant_cache_key_spec(excludes, org1, username1, minimal1);
    let k2 = variant_cache_key_spec(excludes, org2, username2, minimal2);
    let p0: int = e.len() as int + 5;
    if org1 != org2 {
        assert(k1[p0] != k2[p0]);
    } else {
        let p1: int = p0 + flag_text(org1).len() + 10;
        if username1 != username2 {
            assert(k1[p1] != k2[p1]);
        } else {
            let p2: int = p1 + flag_text(username1).len() + 9;
            assert(k1[p2] != k2[p2]);
        }
    }
}

/// The flags part of a variant key.
pub open spec fn variant_suffix(show_org: bool, show_username: bool, minimal: bool) -> Seq<char> {
    ";org="@ + flag_text(show_org) + ";username="@ + flag_text(show_username) + ";minimal="@ + flag_text(minimal)
}

/// Each flag can be read off a fixed place counted from the end of the key: the
/// character five before the end of its text is `=` when it is set (`=true`)
/// and `f` when it is not (`false`).
proof fn lemma_flags_from_the_end(x: Seq<char>, o: bool, u: bool, m: bool)
    ensures
        ({
            let k = x + variant_suffix(o, u, m);
            let n = k.len() as int;
            let lm = flag_text(m).len() as int;
            let lu = flag_text(u).len() as int;
            &&& k[n - 5] == if m { '=' } else { 'f' }
            &&& k[n - lm - 9 - 5] == if u { '=' } else { 'f' }
            &&& k[n - lm - 9 - lu - 10 - 5] == if o { '=' } else { 'f' }
            &&& variant_suffix(o, u, m).len() == 5 + flag_text(o).len() + 10 + lu + 9 + lm
        }),
{
    reveal_strlit(";org=");
    reveal_strlit(";username=");
    reveal_strlit(";minimal=");
    reveal_strlit("true");
    reveal_strlit("false");
    let p1 = ";org="@ + flag_text(o);
    let p2 = p1 + ";username="@;
    let p3 = p2 + flag_text(u);
    let p4 = p3 + ";minimal="@;
    let sfx = p4 + flag_text(m);
    assert(sfx == variant_suffix(o, u, m));
    let k = x + sfx;
    assert(k =~= (((((x + ";org="@) + flag_text(o)) + ";username="@) + flag_text(u)) + ";minimal="@) + flag_text(m));
}

/// A variant key is the exclude cache key followed by the flags part.
proof fn lemma_key_parts(excludes: Seq<Seq<char>>, show_org: bool, show_username: bool, minimal: bool)
    ensures
        variant_cache_key_spec(excludes, show_org, show_username, minimal) == exclude_cache_key_spec(excludes)
            + variant_suffix(show_org, show_username, minimal),
{
    let e = exclude_cache_key_spec(excludes);
    assert(variant_cache_key_spec(excludes, show_org, show_username, minimal) =~= e + variant_suffix(show_org, show_username, minimal));
}

/// Keys made of an exclude part and a flags part are equal only when both
/// parts are.
proof fn lemma_equal_keys_equal_parts(
    ea: Seq<char>,
    org1: bool,
    username1: bool,
    minimal1: bool,
    eb: Seq<char>,
    org2: bool,
    username2: bool,
    minimal2: bool,
)
    requires
        ea + variant_suffix(org1, username1, minimal1) == eb + variant_suffix(org2, username2, minimal2),
    ensures
        org1 == org2 && username1 == username2 && minimal1 == minimal2,
        ea == eb,
{
    let k = ea + variant_suffix(org1, username1, minimal1);
    lemma_flags_from_the_end(ea, org1, username1, minimal1);
    lemma_flags_from_the_end(eb, org2, username2, minimal2);
    assert(minimal1 == minimal2);
    assert(username1 == username2);
    assert(org1 == org2);
    assert(ea =~= k.subrange(0, ea.len() as int));
    assert(eb =~= k.subrange(0, eb.len() as int));
}

/// Two requests that share a variant key ask for the same chart: the same
/// flags, and the same languages left of any totals once excludes apply;
/// provided no normalised exclude holds a comma (commas separate names in the
/// key).
pub proof fn shared_variant_key_same_chart(
    a: Seq<Seq<char>>,
    org1: bool,
    username1: bool,
    minimal1: bool,
    b: Seq<Seq<char>>,
    org2: bool,
    username2: bool,
    minimal2: bool,
    totals: Seq<(Seq<char>, u64)>,
)
    requires
        forall|i: int| 0 <= i < normalized_excludes(a).len() ==> !(#[trigger] normalized_excludes(a)[i]).contains(','),
        forall|i: int| 0 <= i < normalized_excludes(b).len() ==> !(#[trigger] normalized_excludes(b)[i]).contains(','),
        variant_cache_key_spec(a, org1, username1, minimal1) == variant_cache_key_spec(b, org2, username2, minimal2),
    ensures
        org1 == org2 && username1 == username2 && minimal1 == minimal2,
        remaining_after(totals, normalized_excludes(a)) == remaining_after(totals, normalized_excludes(b)),
{
    lemma_key_parts(a, org1, username1, minimal1);
    lemma_key_parts(b, org2, username2, minimal2);
    lemma_equal_keys_equal_parts(
        exclude_cache_key_spec(a),
        org1,
        username1,
        minimal1,
        exclude_cache_key_spec(b),
        org2,
        username2,
        minimal2,
    );
    crate::stats::equal_exclude_keys_remove_the_same(a, b, totals);
}

} // verus!
