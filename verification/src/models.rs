//! Plain data shared by the fetching, caching and request code.
use vstd::prelude::*;
use crate::totals::ByteTotals;

verus! {

/// Language totals of one user under the four repository scopes.
#[derive(Debug)]
pub struct LanguageTotals {
    pub with_org: ByteTotals,
    pub personal_only: ByteTotals,
    pub public_only: ByteTotals,
    pub personal_public_only: ByteTotals,
}

impl LanguageTotals {
    /// Empty totals in every scope.
    pub fn new() -> (r: Self)
        ensures
            r.with_org@.len() == 0,
            r.personal_only@.len() == 0,
            r.public_only@.len() == 0,
            r.personal_public_only@.len() == 0,
    {
        LanguageTotals {
            with_org: ByteTotals::new(),
            personal_only: ByteTotals::new(),
            public_only: ByteTotals::new(),
            personal_public_only: ByteTotals::new(),
        }
    }
}

/// The owner of a repository, as the GitHub API lists it.
#[derive(Clone, Debug)]
pub struct GithubOwner {
    pub login: String,
}

/// A repository, as the GitHub API lists it (the fields that are used).
#[derive(Clone, Debug)]
pub struct GithubRepo {
    pub name: String,
    pub fork: bool,
    pub archived: bool,
    pub private: bool,
    pub owner: GithubOwner,
}

/// The query parameters of a chart request.
#[derive(Clone, Debug)]
pub struct LanguagesQuery {
    pub exclude: Vec<String>,
    pub include_org: bool,
    pub include_private: bool,
    pub show_username: bool,
    pub minimal: bool,
    pub username: Option<String>,
}

/// `includeOrg` is on unless the query says otherwise.
pub fn default_include_org() -> (r: bool)
    ensures
        r,
{
    true
}

/// `includePrivate` is on unless the query says otherwise.
pub fn default_include_private() -> (r: bool)
    ensures
        r,
{
    true
}

/// `showUsername` is on unless the query says otherwise.
pub fn default_show_username() -> (r: bool)
    ensures
        r,
{
    true
}

} // verus!
