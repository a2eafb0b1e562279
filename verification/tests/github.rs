use language_stats::github::{aggregate_languages, merge_language_totals, repo_languages, AggregateError, GithubAccount, RepoCollector};
use language_stats::models::{GithubOwner, GithubRepo};
use language_stats::totals::ByteTotals;

fn repo(name: &str, fork: bool, archived: bool) -> GithubRepo {
    GithubRepo { name: name.to_string(), fork, archived, private: false, owner: GithubOwner { login: "me".to_string() } }
}

#[test]
fn list_urls() {
    let public = GithubAccount { username: "octo".to_string(), authenticated: false };
    assert_eq!(
        public.repos_list_url(2),
        "https://api.github.com/users/octo/repos?per_page=100&page=2&type=all&sort=pushed&direction=desc"
    );
    let auth = GithubAccount { username: "octo".to_string(), authenticated: true };
    assert_eq!(
        auth.repos_list_url(1),
        "https://api.github.com/user/repos?per_page=100&page=1&affiliation=owner,organization_member,collaborator&visibility=all&sort=pushed&direction=desc"
    );
    assert_eq!(auth.username(), "octo");
}

#[test]
fn collector_skips_forks_and_archived_and_stops_on_short_page() {
    let mut c = RepoCollector::new();
    assert_eq!(c.next_page(), Some(1));
    let more = c.accept_batch(vec![repo("a", false, false), repo("b", true, false), repo("c", false, true), repo("d", true, true)]);
    assert!(!more);
    assert_eq!(c.kept.len(), 1);
    assert_eq!(c.kept[0].name, "a");
    assert_eq!(c.skipped_fork, 2);
    assert_eq!(c.skipped_archived, 1);
    assert_eq!(c.raw_total, 4);
    assert_eq!(c.next_page(), None);
}

#[test]
fn collector_reads_two_full_pages_at_most() {
    let mut c = RepoCollector::new();
    let page: Vec<GithubRepo> = (0..100).map(|i| repo(&i.to_string(), false, false)).collect();
    assert!(c.accept_batch(page.clone()));
    assert_eq!(c.next_page(), Some(2));
    assert!(c.accept_batch(page));
    assert_eq!(c.kept.len(), 200);
    assert_eq!(c.next_page(), None);
}

#[test]
fn collector_stops_on_empty_page() {
    let mut c = RepoCollector::new();
    assert!(!c.accept_batch(vec![]));
    assert_eq!(c.next_page(), None);
}

#[test]
fn languages_keep_positive_counts_and_sum_up() {
    let a = repo_languages(vec![("Rust".to_string(), Some(10)), ("C".to_string(), Some(0)), ("Go".to_string(), None)]);
    assert_eq!(a.len(), 1);
    let b = repo_languages(vec![("Rust".to_string(), Some(5)), ("Go".to_string(), Some(3))]);
    let t = aggregate_languages(&vec![a, b]).ok().unwrap();
    assert_eq!(t.get("Rust"), Some(15));
    assert_eq!(t.get("Go"), Some(3));
    assert_eq!(aggregate_languages(&vec![]).err().unwrap(), AggregateError::NoLanguageData);
}

#[test]
fn merge_reports_overflow() {
    let mut t = ByteTotals::from_pairs(vec![("Rust".to_string(), u64::MAX)]);
    let more = ByteTotals::from_pairs(vec![("Rust".to_string(), 1)]);
    assert!(merge_language_totals(&mut t, &more).is_err());
    let big = vec![ByteTotals::from_pairs(vec![("Rust".to_string(), u64::MAX)]), ByteTotals::from_pairs(vec![("Rust".to_string(), 1)])];
    assert_eq!(aggregate_languages(&big).err().unwrap(), AggregateError::Overflow);
}

#[test]
fn merged_totals_are_sums_over_repositories() {
    let repos = vec![
        ByteTotals::from_pairs(vec![("Rust".to_string(), 7), ("C".to_string(), 2)]),
        ByteTotals::from_pairs(vec![("C".to_string(), 5)]),
        ByteTotals::from_pairs(vec![("Rust".to_string(), 1), ("Go".to_string(), 4)]),
    ];
    let t = aggregate_languages(&repos).ok().unwrap();
    assert_eq!(t.get("Rust"), Some(8));
    assert_eq!(t.get("C"), Some(7));
    assert_eq!(t.get("Go"), Some(4));
    assert_eq!(t.get("Zig"), None);
    assert_eq!(t.len(), 3);
}
