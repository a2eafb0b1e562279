//! The decisions behind fetching a user's repositories and their languages:
//! which listing URL to ask, which repositories to keep, when to stop paging,
//! and how per-repository languages add up.
use vstd::prelude::*;
use crate::models::{GithubRepo, LanguageTotals};
use crate::text::{chars_of, eq_ignore_ascii_case, eq_ignore_ascii_case_spec};
use crate::svg::{push_decimal, decimal_spec};
use crate::totals::{ByteTotals, bytes_of, add_entry, insert_entry, index_of_name, lemma_index_of_name, names_distinct, has_name};

verus! {

/// At most this many repositories are kept.
pub const MAX_REPOS: usize = 200;

/// Repositories asked for per listing page.
pub const PER_PAGE: usize = 100;

/// Language requests that may run at once.
pub const MAX_CONCURRENT_LANG_REQUESTS: usize = 10;

/// Who the repositories are listed for.
pub struct GithubAccount {
    pub username: String,
    /// With a token, repositories are listed through `/user/repos`, which
    /// includes private, organisation and collaborator repositories.
    pub authenticated: bool,
}

/// The listing URL of one page.
pub open spec fn repos_list_url_spec(username: Seq<char>, authenticated: bool, page: u32) -> Seq<char> {
    if authenticated {
        "https://api.github.com/user/repos?per_page=100&page="@ + decimal_spec(page as nat)
            + "&affiliation=owner,organization_member,collaborator&visibility=all&sort=pushed&direction=desc"@
    } else {
        "https://api.github.com/users/"@ + username + "/repos?per_page=100&page="@ + decimal_spec(page as nat)
            + "&type=all&sort=pushed&direction=desc"@
    }
}

impl GithubAccount {
    /// The URL of listing page `page`: the authenticated listing covers owner,
    /// organisation member and collaborator repositories, public and private;
    /// the public one lists all of the user's public repositories. Both are
    /// sorted by last push, newest first.
    pub fn repos_list_url(&self, page: u32) -> (r: String)
        ensures
            r@ == repos_list_url_spec(self.username@, self.authenticated, page),
    {
        let mut s = String::new();
        if self.authenticated {
            s.append("https://api.github.com/user/repos?per_page=100&page=");
            push_decimal(&mut s, page as u64);
            s.append("&affiliation=owner,organization_member,collaborator&visibility=all&sort=pushed&direction=desc");
        } else {
            s.append("https://api.github.com/users/");
            s.append(self.username.as_str());
            s.append("/repos?per_page=100&page=");
            push_decimal(&mut s, page as u64);
            s.append("&type=all&sort=pushed&direction=desc");
        }
        s
    }

    /// The user whose repositories are listed.
    pub fn username(&self) -> (r: &str)
        ensures
            r@ == self.username@,
    {
        self.username.as_str()
    }
}

/// The kept repositories and the fork and archive counts after going through
/// `batch` in order: forks and archived repositories are counted and skipped,
/// the others kept, until `MAX_REPOS` are kept.
pub open spec fn absorb_batch(kept: Seq<GithubRepo>, forks: int, archived: int, batch: Seq<GithubRepo>) -> (
    Seq<GithubRepo>,
    int,
    int,
)
    decreases batch.len(),
{
    if batch.len() == 0 || kept.len() >= MAX_REPOS {
        (kept, forks, archived)
    } else if batch[0].fork {
        absorb_batch(kept, forks + 1, archived, batch.drop_first())
    } else if batch[0].archived {
        absorb_batch(kept, forks, archived + 1, batch.drop_first())
    } else {
        absorb_batch(kept.push(batch[0]), forks, archived, batch.drop_first())
    }
}

/// What absorbing a batch adds is bounded by the batch's length.
proof fn lemma_absorb_bounds(kept: Seq<GithubRepo>, forks: int, archived: int, batch: Seq<GithubRepo>)
    ensures
        ({
            let r = absorb_batch(kept, forks, archived, batch);
            &&& r.0.len() >= kept.len()
            &&& r.1 >= forks
            &&& r.2 >= archived
            &&& (r.0.len() - kept.len()) + (r.1 - forks) + (r.2 - archived) <= batch.len()
        }),
    decreases batch.len(),
{
    if batch.len() > 0 && kept.len() < MAX_REPOS {
        if batch[0].fork {
            lemma_absorb_bounds(kept, forks + 1, archived, batch.drop_first());
        } else if batch[0].archived {
            lemma_absorb_bounds(kept, forks, archived + 1, batch.drop_first());
        } else {
            lemma_absorb_bounds(kept.push(batch[0]), forks, archived, batch.drop_first());
        }
    }
}

/// The repositories collected from the listing pages so far.
pub struct RepoCollector {
    pub kept: Vec<GithubRepo>,
    /// Repositories listed, kept or not.
    pub raw_total: usize,
    pub skipped_fork: usize,
    pub skipped_archived: usize,
    /// The next page to ask for (pages are numbered from 1).
    pub page: u32,
    /// An empty or short page was seen: there are no more pages.
    pub done: bool,
}

impl RepoCollector {
    /// The counts are consistent: kept and skipped repositories were all listed.
    pub open spec fn well_formed(&self) -> bool {
        self.kept@.len() + self.skipped_fork + self.skipped_archived <= self.raw_total
    }

    /// Nothing collected yet; page 1 comes next.
    pub fn new() -> (r: Self)
        ensures
            r.kept@.len() == 0,
            r.raw_total == 0,
            r.skipped_fork == 0,
            r.skipped_archived == 0,
            r.page == 1,
            !r.done,
            r.well_formed(),
    {
        RepoCollector { kept: Vec::new(), raw_total: 0, skipped_fork: 0, skipped_archived: 0, page: 1, done: false }
    }

    /// The page to fetch next, if any: at most two pages are read, none after a
    /// short or empty page, and none once `MAX_REPOS` repositories are kept.
    pub fn next_page(&self) -> (r: Option<u32>)
        ensures
            r == if !self.done && self.page <= 2 && self.kept@.len() < MAX_REPOS {
                Some(self.page)
            } else {
                None::<u32>
            },
    {
        if !self.done && self.page <= 2 && self.kept.len() < MAX_REPOS {
            Some(self.page)
        } else {
            None
        }
    }

    /// Takes in the listing page just fetched: counts it, keeps the repositories
    /// that are neither forks nor archived (up to `MAX_REPOS`), and ends the
    /// paging after an empty page or one shorter than `PER_PAGE`. Returns
    /// whether another page may follow.
    pub fn accept_batch(&mut self, batch: Vec<GithubRepo>) -> (r: bool)
        requires
            old(self).well_formed(),
            old(self).page <= 2,
            old(self).raw_total + batch@.len() <= usize::MAX,
        ensures
            final(self).well_formed(),
            final(self).raw_total == old(self).raw_total + batch@.len(),
            (final(self).kept@, final(self).skipped_fork as int, final(self).skipped_archived as int) == absorb_batch(
                old(self).kept@,
                old(self).skipped_fork as int,
                old(self).skipped_archived as int,
                batch@,
            ),
            final(self).page == old(self).page + 1,
            final(self).done == (old(self).done || batch@.len() < PER_PAGE),
            r == !final(self).done,
    {
        let ghost b0 = batch@;
        let ghost target = absorb_batch(self.kept@, self.skipped_fork as int, self.skipped_archived as int, b0);
        proof {
            lemma_absorb_bounds(self.kept@, self.skipped_fork as int, self.skipped_archived as int, b0);
        }
        let len = batch.len();
        self.raw_total = self.raw_total + len;
        let mut rest = batch;
        let mut i: usize = 0;
        assert(b0.skip(0) =~= b0);
        while rest.len() > 0 && self.kept.len() < MAX_REPOS
            invariant
                i <= len == b0.len(),
                rest@ == b0.skip(i as int),
                target == absorb_batch(self.kept@, self.skipped_fork as int, self.skipped_archived as int, rest@),
                ({
                    let r = absorb_batch(self.kept@, self.skipped_fork as int, self.skipped_archived as int, rest@);
                    (r.0.len() - self.kept@.len()) + (r.1 - self.skipped_fork) + (r.2 - self.skipped_archived)
                        <= rest@.len()
                }),
                target.0.len() + target.1 + target.2 <= self.raw_total,
                self.raw_total <= usize::MAX,
                self.raw_total == old(self).raw_total + len,
                self.page == old(self).page,
                self.page <= 2,
                self.done == old(self).done,
            decreases rest@.len(),
        {
            proof {
                lemma_absorb_bounds(self.kept@, self.skipped_fork as int, self.skipped_archived as int, rest@);
            }
            let ghost before = rest@;
            let repo = rest.remove(0);
            assert(rest@ =~= before.drop_first());
            assert(rest@ =~= b0.skip(i + 1));
            if repo.fork {
                proof {
                    lemma_absorb_bounds(self.kept@, self.skipped_fork + 1, self.skipped_archived as int, rest@);
                }
                self.skipped_fork = self.skipped_fork + 1;
            } else if repo.archived {
                proof {
                    lemma_absorb_bounds(self.kept@, self.skipped_fork as int, self.skipped_archived + 1, rest@);
                }
                self.skipped_archived = self.skipped_archived + 1;
            } else {
                proof {
                    lemma_absorb_bounds(self.kept@.push(repo), self.skipped_fork as int, self.skipped_archived as int, rest@);
                }
                self.kept.push(repo);
            }
            i = i + 1;
        }
        self.page = self.page + 1;
        if len < PER_PAGE {
            self.done = true;
        }
        !self.done
    }
}

/// Per-language bytes of one repository from the GitHub languages object:
/// entries whose value is a positive integer that fits in a `u64` are kept
/// (`None` marks a value that is not such an integer).
pub open spec fn repo_languages_spec(pairs: Seq<(Seq<char>, Option<u64>)>) -> Seq<(Seq<char>, u64)>
    decreases pairs.len(),
{
    if pairs.len() == 0 {
        Seq::empty()
    } else {
        let rest = repo_languages_spec(pairs.drop_last());
        match pairs.last().1 {
            Some(n) => if n > 0 {
                insert_entry(rest, pairs.last().0, n)
            } else {
                rest
            },
            None => rest,
        }
    }
}

/// The languages of one repository: each name with a positive byte count.
pub fn repo_languages(pairs: Vec<(String, Option<u64>)>) -> (r: ByteTotals)
    ensures
        r@ == repo_languages_spec(pairs@.map_values(|e: (String, Option<u64>)| (e.0@, e.1))),
{
    let ghost pv = pairs@.map_values(|e: (String, Option<u64>)| (e.0@, e.1));
    let mut map = ByteTotals::new();
    let mut i: usize = 0;
    assert(pv.take(0) =~= Seq::<(Seq<char>, Option<u64>)>::empty());
    while i < pairs.len()
        invariant
            i <= pairs@.len(),
            pv == pairs@.map_values(|e: (String, Option<u64>)| (e.0@, e.1)),
            map@ == repo_languages_spec(pv.take(i as int)),
        decreases pairs@.len() - i,
    {
        assert(pv.take(i + 1).drop_last() =~= pv.take(i as int));
        assert(pv.take(i + 1).last() == pv[i as int]);
        match pairs[i].1 {
            Some(n) => {
                if n > 0 {
                    map.insert(pairs[i].0.clone(), n);
                }
            },
            None => {},
        }
        i = i + 1;
    }
    assert(pv.take(pairs@.len() as int) =~= pv);
    map
}

/// Adding each language of `langs`, in order, to the totals.
pub open spec fn merge_entries(s: Seq<(Seq<char>, u64)>, langs: Seq<(Seq<char>, u64)>) -> Seq<(Seq<char>, u64)>
    decreases langs.len(),
{
    if langs.len() == 0 {
        s
    } else {
        add_entry(merge_entries(s, langs.drop_last()), langs.last().0, langs.last().1)
    }
}

/// Every addition of the merge fits in a `u64`.
pub open spec fn merge_fits(s: Seq<(Seq<char>, u64)>, langs: Seq<(Seq<char>, u64)>) -> bool
    decreases langs.len(),
{
    langs.len() == 0 || (merge_fits(s, langs.drop_last()) && bytes_of(merge_entries(s, langs.drop_last()), langs.last().0)
        + langs.last().1 <= u64::MAX)
}

/// A byte sum that does not fit in a `u64`.
#[derive(Debug, Clone, Copy, PartialEq, Eq, Structural)]
pub struct ByteOverflow;

/// Adds each language of one repository to the totals. When a sum would not
/// fit in a `u64` the error comes back (the totals are then partly merged).
pub fn merge_language_totals(totals: &mut ByteTotals, languages: &ByteTotals) -> (r: Result<(), ByteOverflow>)
    ensures
        r is Ok <==> merge_fits(old(totals)@, languages@),
        r is Ok ==> final(totals)@ == merge_entries(old(totals)@, languages@),
{
    let pairs = languages.pairs();
    let ghost lv = languages@;
    let ghost start = totals@;
    let mut i: usize = 0;
    assert(lv.take(0) =~= Seq::<(Seq<char>, u64)>::empty());
    while i < pairs.len()
        invariant
            i <= pairs@.len(),
            lv == pairs@.map_values(|e: (String, u64)| (e.0@, e.1)),
            lv == languages@,
            start == old(totals)@,
            merge_fits(start, lv.take(i as int)),
            totals@ == merge_entries(start, lv.take(i as int)),
        decreases pairs@.len() - i,
    {
        assert(lv.take(i + 1).drop_last() =~= lv.take(i as int));
        assert(lv.take(i + 1).last() == lv[i as int]);
        let name = pairs[i].0.clone();
        let bytes = pairs[i].1;
        proof {
            lemma_index_of_name(totals@, name@);
        }
        let cur = match totals.get(name.as_str()) {
            Some(b) => b,
            None => 0,
        };
        if bytes > u64::MAX - cur {
            proof {
                assert(!merge_fits(start, lv.take(i + 1)));
                if merge_fits(start, lv) {
                    lemma_merge_fits_prefix(start, lv, i + 1);
                }
            }
            return Err(ByteOverflow);
        }
        totals.add(name, bytes);
        i = i + 1;
    }
    assert(lv.take(pairs@.len() as int) =~= lv);
    Ok(())
}

/// A merge that fits also fits on every prefix of the languages.
proof fn lemma_merge_fits_prefix(s: Seq<(Seq<char>, u64)>, langs: Seq<(Seq<char>, u64)>, k: int)
    requires
        0 <= k <= langs.len(),
        merge_fits(s, langs),
    ensures
        merge_fits(s, langs.take(k)),
    decreases langs.len() - k,
{
    if k < langs.len() {
        lemma_merge_fits_prefix(s, langs, k + 1);
        assert(langs.take(k + 1).drop_last() =~= langs.take(k));
    } else {
        assert(langs.take(k) =~= langs);
    }
}

/// Why a user's language totals could not be formed.
#[derive(Debug, Clone, Copy, PartialEq, Eq, Structural)]
pub enum AggregateError {
    /// No repository reported any language.
    NoLanguageData,
    /// A byte sum did not fit in a `u64`.
    Overflow,
}

/// Merging the languages of each repository in turn.
pub open spec fn merge_all(s: Seq<(Seq<char>, u64)>, repos: Seq<Seq<(Seq<char>, u64)>>) -> Seq<(Seq<char>, u64)>
    decreases repos.len(),
{
    if repos.len() == 0 {
        s
    } else {
        merge_entries(merge_all(s, repos.drop_last()), repos.last())
    }
}

/// Every addition of merging all repositories fits in a `u64`.
pub open spec fn merge_all_fits(s: Seq<(Seq<char>, u64)>, repos: Seq<Seq<(Seq<char>, u64)>>) -> bool
    decreases repos.len(),
{
    repos.len() == 0 || (merge_all_fits(s, repos.drop_last()) && merge_fits(merge_all(s, repos.drop_last()), repos.last()))
}

/// Sums the languages of all repositories in turn; when a sum does not fit in
/// a `u64` the error comes back.
pub fn merge_all_repos(repos: &Vec<ByteTotals>) -> (r: Result<ByteTotals, ByteOverflow>)
    ensures
        r is Ok <==> merge_all_fits(Seq::empty(), repos@.map_values(|t: ByteTotals| t@)),
        match r {
            Ok(t) => t@ == merge_all(Seq::empty(), repos@.map_values(|t: ByteTotals| t@)),
            Err(_) => true,
        },
{
    let ghost rv = repos@.map_values(|t: ByteTotals| t@);
    let mut totals = ByteTotals::new();
    let mut i: usize = 0;
    assert(rv.take(0) =~= Seq::<Seq<(Seq<char>, u64)>>::empty());
    while i < repos.len()
        invariant
            i <= repos@.len(),
            rv == repos@.map_values(|t: ByteTotals| t@),
            merge_all_fits(Seq::empty(), rv.take(i as int)),
            totals@ == merge_all(Seq::empty(), rv.take(i as int)),
        decreases repos@.len() - i,
    {
        assert(rv.take(i + 1).drop_last() =~= rv.take(i as int));
        assert(rv.take(i + 1).last() == repos@[i as int]@);
        match merge_language_totals(&mut totals, &repos[i]) {
            Ok(()) => {},
            Err(e) => {
                proof {
                    assert(!merge_all_fits(Seq::empty(), rv.take(i + 1)));
                    if merge_all_fits(Seq::empty(), rv) {
                        lemma_merge_all_fits_prefix(rv, i + 1);
                    }
                }
                return Err(e);
            },
        }
        i = i + 1;
    }
    assert(rv.take(repos@.len() as int) =~= rv);
    Ok(totals)
}

/// Sums the languages of all repositories. With no language at all the error
/// is `NoLanguageData`; when a sum does not fit in a `u64`, `Overflow`.
pub fn aggregate_languages(repos: &Vec<ByteTotals>) -> (r: Result<ByteTotals, AggregateError>)
    ensures
        match r {
            Ok(t) => {
                &&& merge_all_fits(Seq::empty(), repos@.map_values(|t: ByteTotals| t@))
                &&& t@ == merge_all(Seq::empty(), repos@.map_values(|t: ByteTotals| t@))
                &&& t@.len() > 0
            },
            Err(AggregateError::Overflow) => !merge_all_fits(Seq::empty(), repos@.map_values(|t: ByteTotals| t@)),
            Err(AggregateError::NoLanguageData) => {
                &&& merge_all_fits(Seq::empty(), repos@.map_values(|t: ByteTotals| t@))
                &&& merge_all(Seq::empty(), repos@.map_values(|t: ByteTotals| t@)).len() == 0
            },
        },
{
    match merge_all_repos(repos) {
        Ok(t) => {
            if t.is_empty() {
                Err(AggregateError::NoLanguageData)
            } else {
                Ok(t)
            }
        },
        Err(_) => Err(AggregateError::Overflow),
    }
}

/// The bytes of `name` summed over the languages of several repositories.
pub open spec fn bytes_across(repos: Seq<Seq<(Seq<char>, u64)>>, name: Seq<char>) -> int
    decreases repos.len(),
{
    if repos.len() == 0 {
        0
    } else {
        bytes_across(repos.drop_last(), name) + bytes_of(repos.last(), name)
    }
}

/// Entries with the same names at each position find a name at the same index.
proof fn lemma_index_of_same_names(s: Seq<(Seq<char>, u64)>, t: Seq<(Seq<char>, u64)>, name: Seq<char>)
    requires
        s.len() == t.len(),
        forall|i: int| 0 <= i < s.len() ==> #[trigger] s[i].0 == t[i].0,
    ensures
        index_of_name(s, name) == index_of_name(t, name),
    decreases s.len(),
{
    if s.len() > 0 {
        lemma_index_of_same_names(s.drop_last(), t.drop_last(), name);
        assert(s.last().0 == t.last().0);
    }
}

/// Adding bytes to one name changes the bytes of that name alone.
proof fn lemma_bytes_of_add_entry(s: Seq<(Seq<char>, u64)>, n: Seq<char>, b: u64, name: Seq<char>)
    requires
        bytes_of(s, n) + b <= u64::MAX,
    ensures
        bytes_of(add_entry(s, n, b), name) == if name == n { bytes_of(s, n) + b } else { bytes_of(s, name) as int },
{
    lemma_index_of_name(s, n);
    lemma_index_of_name(s, name);
    let v = (bytes_of(s, n) + b) as u64;
    let i = index_of_name(s, n);
    let t = add_entry(s, n, b);
    if i >= 0 {
        assert(t == s.update(i, (n, v)));
        lemma_index_of_same_names(t, s, name);
        lemma_index_of_same_names(t, s, n);
        if name != n {
            let j = index_of_name(s, name);
            if j >= 0 {
                assert(j != i);
                assert(t[j] == s[j]);
            }
        }
    } else {
        assert(t == s.push((n, v)));
        assert(t.drop_last() =~= s);
    }
}

/// Merging one repository adds its bytes of each name to the totals.
proof fn lemma_bytes_of_merge_entries(s: Seq<(Seq<char>, u64)>, langs: Seq<(Seq<char>, u64)>, name: Seq<char>)
    requires
        merge_fits(s, langs),
        names_distinct(langs),
    ensures
        bytes_of(merge_entries(s, langs), name) == bytes_of(s, name) + bytes_of(langs, name),
    decreases langs.len(),
{
    if langs.len() > 0 {
        let rest = langs.drop_last();
        let x = langs.last();
        lemma_bytes_of_merge_entries(s, rest, name);
        lemma_bytes_of_add_entry(merge_entries(s, rest), x.0, x.1, name);
        lemma_index_of_name(rest, name);
        if x.0 == name {
            if has_name(rest, name) {
                let k = choose|k: int| 0 <= k < rest.len() && #[trigger] rest[k].0 == name;
                assert(langs[k].0 == langs[langs.len() - 1].0);
            }
        } else {
            let j = index_of_name(rest, name);
            if j >= 0 {
                assert(langs[j] == rest[j]);
            }
        }
    }
}

/// Merging several repositories adds, for each name, its bytes in each of them.
proof fn lemma_bytes_of_merge_all(s: Seq<(Seq<char>, u64)>, repos: Seq<Seq<(Seq<char>, u64)>>, name: Seq<char>)
    requires
        merge_all_fits(s, repos),
        forall|i: int| 0 <= i < repos.len() ==> names_distinct(#[trigger] repos[i]),
    ensures
        bytes_of(merge_all(s, repos), name) == bytes_of(s, name) + bytes_across(repos, name),
    decreases repos.len(),
{
    if repos.len() > 0 {
        let rest = repos.drop_last();
        assert forall|i: int| 0 <= i < rest.len() implies names_distinct(#[trigger] rest[i]) by {
            assert(rest[i] == repos[i]);
        }
        lemma_bytes_of_merge_all(s, rest, name);
        assert(names_distinct(repos[repos.len() - 1]));
        lemma_bytes_of_merge_entries(merge_all(s, rest), repos.last(), name);
    }
}

/// The totals of a user are the sums over the repositories: when every sum
/// fits, the merged bytes of each language are its bytes in each repository
/// added together (0 for a language that none reports).
pub proof fn merged_totals_sum_each_language(repos: Seq<Seq<(Seq<char>, u64)>>, name: Seq<char>)
    requires
        merge_all_fits(Seq::empty(), repos),
        forall|i: int| 0 <= i < repos.len() ==> names_distinct(#[trigger] repos[i]),
    ensures
        bytes_of(merge_all(Seq::empty(), repos), name) == bytes_across(repos, name),
{
    lemma_bytes_of_merge_all(Seq::empty(), repos, name);
}

/// The languages of one repository, with what decides its scopes.
#[derive(Debug)]
pub struct RepoLanguages {
    pub owner_login: String,
    pub private: bool,
    pub languages: ByteTotals,
}

/// A repository belongs to a scope: when `personal`, it is owned by the user
/// (logins compared ignoring ASCII case); when `public`, it is not private.
pub open spec fn in_scope(r: RepoLanguages, username: Seq<char>, personal: bool, public: bool) -> bool {
    (!personal || eq_ignore_ascii_case_spec(r.owner_login@, username)) && (!public || !r.private)
}

/// The languages of the repositories in a scope, in order.
pub open spec fn scoped_languages(repos: Seq<RepoLanguages>, username: Seq<char>, personal: bool, public: bool) -> Seq<
    Seq<(Seq<char>, u64)>,
>
    decreases repos.len(),
{
    if repos.len() == 0 {
        Seq::empty()
    } else {
        let rest = scoped_languages(repos.drop_last(), username, personal, public);
        if in_scope(repos.last(), username, personal, public) {
            rest.push(repos.last().languages@)
        } else {
            rest
        }
    }
}

/// The repositories of one scope.
fn select_scope(repos: &Vec<RepoLanguages>, username: &[char], personal: bool, public: bool) -> (r: Vec<ByteTotals>)
    ensures
        r@.map_values(|t: ByteTotals| t@) == scoped_languages(repos@, username@, personal, public),
{
    let mut out: Vec<ByteTotals> = Vec::new();
    let mut i: usize = 0;
    assert(repos@.take(0) =~= Seq::<RepoLanguages>::empty());
    assert(out@.map_values(|t: ByteTotals| t@) =~= Seq::<Seq<(Seq<char>, u64)>>::empty());
    while i < repos.len()
        invariant
            i <= repos@.len(),
            out@.map_values(|t: ByteTotals| t@) == scoped_languages(repos@.take(i as int), username@, personal, public),
        decreases repos@.len() - i,
    {
        assert(repos@.take(i + 1).drop_last() =~= repos@.take(i as int));
        assert(repos@.take(i + 1).last() == repos@[i as int]);
        let r = &repos[i];
        let owned = eq_ignore_ascii_case(&chars_of(r.owner_login.as_str()), username);
        if (!personal || owned) && (!public || !r.private) {
            let ghost before = out@;
            let t = r.languages.duplicate();
            out.push(t);
            assert(out@.map_values(|t: ByteTotals| t@) =~= before.map_values(|t: ByteTotals| t@).push(r.languages@));
        }
        i = i + 1;
    }
    assert(repos@.take(repos@.len() as int) =~= repos@);
    out
}

/// The user's language totals in the four scopes: all repositories, those the
/// user owns, the public ones, and the public ones the user owns. With no
/// language in any repository the error is `NoLanguageData`; when a sum does
/// not fit in a `u64`, `Overflow`.
pub fn language_totals_by_scope(repos: &Vec<RepoLanguages>, username: &str) -> (r: Result<LanguageTotals, AggregateError>)
    ensures
        ({
            let u = username@;
            let all = scoped_languages(repos@, u, false, false);
            let own = scoped_languages(repos@, u, true, false);
            let public = scoped_languages(repos@, u, false, true);
            let own_public = scoped_languages(repos@, u, true, true);
            match r {
                Ok(t) => {
                    &&& merge_all_fits(Seq::empty(), all) && merge_all_fits(Seq::empty(), own)
                    &&& merge_all_fits(Seq::empty(), public) && merge_all_fits(Seq::empty(), own_public)
                    &&& t.with_org@ == merge_all(Seq::empty(), all)
                    &&& t.personal_only@ == merge_all(Seq::empty(), own)
                    &&& t.public_only@ == merge_all(Seq::empty(), public)
                    &&& t.personal_public_only@ == merge_all(Seq::empty(), own_public)
                    &&& t.with_org@.len() > 0
                },
                Err(AggregateError::NoLanguageData) => {
                    &&& merge_all_fits(Seq::empty(), all)
                    &&& merge_all(Seq::empty(), all).len() == 0
                },
                Err(AggregateError::Overflow) => !(merge_all_fits(Seq::empty(), all) && merge_all_fits(Seq::empty(), own)
                    && merge_all_fits(Seq::empty(), public) && merge_all_fits(Seq::empty(), own_public)),
            }
        }),
{
    let u = chars_of(username);
    let with_org = match aggregate_languages(&select_scope(repos, &u, false, false)) {
        Ok(t) => t,
        Err(e) => return Err(e),
    };
    let personal_only = match merge_all_repos(&select_scope(repos, &u, true, false)) {
        Ok(t) => t,
        Err(_) => return Err(AggregateError::Overflow),
    };
    let public_only = match merge_all_repos(&select_scope(repos, &u, false, true)) {
        Ok(t) => t,
        Err(_) => return Err(AggregateError::Overflow),
    };
    let personal_public_only = match merge_all_repos(&select_scope(repos, &u, true, true)) {
        Ok(t) => t,
        Err(_) => return Err(AggregateError::Overflow),
    };
    Ok(LanguageTotals { with_org, personal_only, public_only, personal_public_only })
}

/// Merging all repositories fits only if it fits on every prefix.
proof fn lemma_merge_all_fits_prefix(repos: Seq<Seq<(Seq<char>, u64)>>, k: int)
    requires
        0 <= k <= repos.len(),
        merge_all_fits(Seq::empty(), repos),
    ensures
        merge_all_fits(Seq::empty(), repos.take(k)),
    decreases repos.len() - k,
{
    if k < repos.len() {
        lemma_merge_all_fits_prefix(repos, k + 1);
        assert(repos.take(k + 1).drop_last() =~= repos.take(k));
    } else {
        assert(repos.take(k) =~= repos);
    }
}

/// The bytes of `name` summed over the repositories that the user owns (owner
/// login equal to `username` ignoring ASCII case) when `personal`, and that
/// are not private when `public`.
pub open spec fn bytes_over_repos(repos: Seq<RepoLanguages>, username: Seq<char>, personal: bool, public: bool, name: Seq<char>) -> int
    decreases repos.len(),
{
    if repos.len() == 0 {
        0
    } else {
        let r = repos.last();
        let counted = (personal ==> eq_ignore_ascii_case_spec(r.owner_login@, username)) && (public ==> !r.private);
        bytes_over_repos(repos.drop_last(), username, personal, public, name) + if counted {
            bytes_of(r.languages@, name) as int
        } else {
            0
        }
    }
}

/// The languages taken into a scope are those of its repositories, each with
/// distinct names, and they add up to the bytes over those repositories.
proof fn lemma_scoped_bytes(repos: Seq<RepoLanguages>, username: Seq<char>, personal: bool, public: bool, name: Seq<char>)
    requires
        forall|i: int| 0 <= i < repos.len() ==> names_distinct((#[trigger] repos[i]).languages@),
    ensures
        forall|i: int| 0 <= i < scoped_languages(repos, username, personal, public).len()
            ==> names_distinct(#[trigger] scoped_languages(repos, username, personal, public)[i]),
        bytes_across(scoped_languages(repos, username, personal, public), name) == bytes_over_repos(repos, username, personal, public, name),
    decreases repos.len(),
{
    if repos.len() > 0 {
        let t = repos.drop_last();
        assert forall|i: int| 0 <= i < t.len() implies names_distinct((#[trigger] t[i]).languages@) by {
            assert(t[i] == repos[i]);
        }
        lemma_scoped_bytes(t, username, personal, public, name);
        let rest = scoped_languages(t, username, personal, public);
        let sc = scoped_languages(repos, username, personal, public);
        assert(names_distinct(repos[repos.len() - 1].languages@));
        assert forall|i: int| 0 <= i < sc.len() implies names_distinct(#[trigger] sc[i]) by {
            if i < rest.len() {
                assert(sc[i] == rest[i]);
            }
        }
        if sc.len() > rest.len() {
            assert(sc.drop_last() =~= rest);
        }
    }
}

/// The totals of a scope are sums over exactly its repositories: for every
/// language, the personal totals add up the repositories the user owns (a
/// repository of another owner adds nothing), the public totals those that
/// are not private, and the personal public totals those that are both.
pub proof fn scope_totals_sum_its_repositories(
    repos: Seq<RepoLanguages>,
    username: Seq<char>,
    personal: bool,
    public: bool,
    name: Seq<char>,
)
    requires
        forall|i: int| 0 <= i < repos.len() ==> names_distinct((#[trigger] repos[i]).languages@),
        merge_all_fits(Seq::empty(), scoped_languages(repos, username, personal, public)),
    ensures
        bytes_of(merge_all(Seq::empty(), scoped_languages(repos, username, personal, public)), name)
            == bytes_over_repos(repos, username, personal, public, name),
{
    lemma_scoped_bytes(repos, username, personal, public, name);
    merged_totals_sum_each_language(scoped_languages(repos, username, personal, public), name);
}

/// A repository owned by someone else leaves the personal scopes as they were.
pub proof fn foreign_repository_not_personal(repos: Seq<RepoLanguages>, r: RepoLanguages, username: Seq<char>, public: bool)
    requires
        !eq_ignore_ascii_case_spec(r.owner_login@, username),
    ensures
        scoped_languages(repos.push(r), username, true, public) == scoped_languages(repos, username, true, public),
{
    assert(repos.push(r).drop_last() =~= repos);
}

/// Two repositories that differ at most in being private.
pub open spec fn same_but_privacy(a: GithubRepo, b: GithubRepo) -> bool {
    &&& a.name@ == b.name@
    &&& a.fork == b.fork
    &&& a.archived == b.archived
    &&& a.owner.login@ == b.owner.login@
}

/// Whether a repository is private does not change what the listing keeps:
/// batches that differ only in privacy keep the same repositories (up to
/// privacy) and skip as many forks and archived ones.
pub proof fn privacy_does_not_change_what_is_kept(
    kept1: Seq<GithubRepo>,
    kept2: Seq<GithubRepo>,
    forks: int,
    archived: int,
    batch1: Seq<GithubRepo>,
    batch2: Seq<GithubRepo>,
)
    requires
        kept1.len() == kept2.len(),
        forall|i: int| 0 <= i < kept1.len() ==> same_but_privacy(#[trigger] kept1[i], kept2[i]),
        batch1.len() == batch2.len(),
        forall|i: int| 0 <= i < batch1.len() ==> same_but_privacy(#[trigger] batch1[i], batch2[i]),
    ensures
        ({
            let r1 = absorb_batch(kept1, forks, archived, batch1);
            let r2 = absorb_batch(kept2, forks, archived, batch2);
            &&& r1.1 == r2.1 && r1.2 == r2.2
            &&& r1.0.len() == r2.0.len()
            &&& forall|i: int| 0 <= i < r1.0.len() ==> same_but_privacy(#[trigger] r1.0[i], r2.0[i])
        }),
    decreases batch1.len(),
{
    if batch1.len() > 0 && kept1.len() < MAX_REPOS {
        let t1 = batch1.drop_first();
        let t2 = batch2.drop_first();
        assert forall|i: int| 0 <= i < t1.len() implies same_but_privacy(#[trigger] t1[i], t2[i]) by {
            assert(t1[i] == batch1[i + 1] && t2[i] == batch2[i + 1]);
        }
        assert(same_but_privacy(batch1[0], batch2[0]));
        if batch1[0].fork {
            privacy_does_not_change_what_is_kept(kept1, kept2, forks + 1, archived, t1, t2);
        } else if batch1[0].archived {
            privacy_does_not_change_what_is_kept(kept1, kept2, forks, archived + 1, t1, t2);
        } else {
            let k1 = kept1.push(batch1[0]);
            let k2 = kept2.push(batch2[0]);
            assert forall|i: int| 0 <= i < k1.len() implies same_but_privacy(#[trigger] k1[i], k2[i]) by {
                if i < kept1.len() {
                    assert(k1[i] == kept1[i] && k2[i] == kept2[i]);
                }
            }
            privacy_does_not_change_what_is_kept(k1, k2, forks, archived, t1, t2);
        }
    }
}

/// What is kept already stays, at the front.
proof fn lemma_absorb_extends(kept: Seq<GithubRepo>, forks: int, archived: int, batch: Seq<GithubRepo>)
    ensures
        absorb_batch(kept, forks, archived, batch).0.len() >= kept.len(),
        absorb_batch(kept, forks, archived, batch).0.take(kept.len() as int) == kept,
    decreases batch.len(),
{
    let r = absorb_batch(kept, forks, archived, batch);
    if batch.len() > 0 && kept.len() < MAX_REPOS {
        let t = batch.drop_first();
        if batch[0].fork {
            lemma_absorb_extends(kept, forks + 1, archived, t);
        } else if batch[0].archived {
            lemma_absorb_extends(kept, forks, archived + 1, t);
        } else {
            let k = kept.push(batch[0]);
            lemma_absorb_extends(k, forks, archived, t);
            assert(r.0.take(kept.len() as int) =~= r.0.take(k.len() as int).take(kept.len() as int));
            assert(k.take(kept.len() as int) =~= kept);
        }
    } else {
        assert(r.0.take(kept.len() as int) =~= kept);
    }
}

/// While fewer than `MAX_REPOS` are kept, every listed repository that is
/// neither a fork nor archived is kept, private or not.
pub proof fn unskipped_repositories_are_kept(kept: Seq<GithubRepo>, forks: int, archived: int, batch: Seq<GithubRepo>)
    ensures
        absorb_batch(kept, forks, archived, batch).0.len() < MAX_REPOS ==> forall|i: int|
            0 <= i < batch.len() && !(#[trigger] batch[i]).fork && !batch[i].archived
                ==> absorb_batch(kept, forks, archived, batch).0.contains(batch[i]),
    decreases batch.len(),
{
    let r = absorb_batch(kept, forks, archived, batch);
    if batch.len() > 0 && kept.len() < MAX_REPOS {
        let t = batch.drop_first();
        assert forall|i: int| 1 <= i < batch.len() implies #[trigger] batch[i] == t[i - 1] by {}
        if batch[0].fork {
            unskipped_repositories_are_kept(kept, forks + 1, archived, t);
        } else if batch[0].archived {
            unskipped_repositories_are_kept(kept, forks, archived + 1, t);
        } else {
            let k = kept.push(batch[0]);
            unskipped_repositories_are_kept(k, forks, archived, t);
            lemma_absorb_extends(k, forks, archived, t);
            assert(r.0.take(k.len() as int)[kept.len() as int] == batch[0]);
            assert(r.0[kept.len() as int] == batch[0]);
        }
        if r.0.len() < MAX_REPOS {
            assert forall|i: int| 0 <= i < batch.len() && !(#[trigger] batch[i]).fork && !batch[i].archived
                implies r.0.contains(batch[i]) by {
                if i > 0 {
                    assert(t[i - 1] == batch[i]);
                } else {
                    assert(r.0[kept.len() as int] == batch[0]);
                }
            }
        }
    } else if kept.len() >= MAX_REPOS {
        assert(r.0 == kept);
    }
}

} // verus!
