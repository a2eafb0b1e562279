use language_stats::query::normalize_query_commas;
use language_stats::stats::parse_excludes_from_params;

#[test]
fn normalizes_comma_separated_bool_params() {
    assert_eq!(
        normalize_query_commas("minimal=true,showUsername=false&includeOrg=false"),
        "minimal=true&showUsername=false&includeOrg=false"
    );
}

#[test]
fn preserves_commas_in_exclude_values() {
    assert_eq!(
        normalize_query_commas("exclude=HTML,CSS,Java&minimal=true"),
        "exclude=HTML,CSS,Java&minimal=true"
    );
}

#[test]
fn minimal_first_with_comma_separated_flags() {
    assert_eq!(
        normalize_query_commas("minimal=true,showUsername=false,includeOrg=false&exclude=HTML,CSS"),
        "minimal=true&showUsername=false&includeOrg=false&exclude=HTML,CSS"
    );
}

#[test]
fn ampersand_separated_unchanged() {
    let query = "minimal=true&showUsername=false&includeOrg=false&exclude=HTML,CSS";
    assert_eq!(normalize_query_commas(query), query);
}

#[test]
fn normalize_is_idempotent_on_example() {
    let once = normalize_query_commas("a=1,b=2,,c,d=4&e=x,y");
    assert_eq!(once, "a=1&b=2,,c&d=4&e=x,y");
    assert_eq!(normalize_query_commas(&once), once);
}

#[test]
fn comma_in_key_part_is_kept() {
    assert_eq!(normalize_query_commas("a,b=c"), "a,b=c");
}

#[test]
fn name_must_start_with_letter() {
    assert_eq!(normalize_query_commas("a=1,2b=3"), "a=1,2b=3");
    assert_eq!(normalize_query_commas("a=1,b_2=3"), "a=1&b_2=3");
}

#[test]
fn comma_without_following_eq_is_kept() {
    assert_eq!(normalize_query_commas("exclude=C,Rust"), "exclude=C,Rust");
    assert_eq!(normalize_query_commas(""), "");
    assert_eq!(normalize_query_commas("novalue,x=1"), "novalue,x=1");
}

#[test]
fn non_ascii_name_is_not_a_param() {
    assert_eq!(normalize_query_commas("a=1,é=2"), "a=1,é=2");
    assert_eq!(normalize_query_commas("a=é,b=2"), "a=é&b=2");
}

#[test]
fn length_is_preserved() {
    let q = "minimal=true,showUsername=false,includeOrg=false&exclude=HTML,CSS,x=1";
    assert_eq!(normalize_query_commas(q).chars().count(), q.chars().count());
}

fn query_pairs(normalized: &str) -> Vec<(String, String)> {
    serde_urlencoded::from_str::<Vec<(String, String)>>(normalized).unwrap()
}

fn values_of<'a>(pairs: &'a [(String, String)], key: &str) -> Vec<&'a str> {
    pairs.iter().filter(|(k, _)| k == key).map(|(_, v)| v.as_str()).collect()
}

#[test]
fn deserializes_comma_joined_minimal_first() {
    let normalized = normalize_query_commas(
        "minimal=true,showUsername=false,includeOrg=false&exclude=HTML,CSS",
    );
    let pairs = query_pairs(&normalized);
    assert_eq!(values_of(&pairs, "minimal"), vec!["true"]);
    assert_eq!(values_of(&pairs, "showUsername"), vec!["false"]);
    assert_eq!(values_of(&pairs, "includeOrg"), vec!["false"]);
    assert_eq!(values_of(&pairs, "exclude"), vec!["HTML,CSS"]);
}

#[test]
fn deserializes_exact_comma_joined_url_from_screenshot() {
    let raw = "minimal=true,showUsername=false&includeOrg=false&exclude=HTML,CSS,Java,Blade,PHP,Jupyter%20Notebook";
    let normalized = normalize_query_commas(raw);
    let pairs = query_pairs(&normalized);
    assert_eq!(values_of(&pairs, "minimal"), vec!["true"]);
    assert_eq!(values_of(&pairs, "showUsername"), vec!["false"]);
    assert_eq!(values_of(&pairs, "includeOrg"), vec!["false"]);
    let exclude: Vec<String> = values_of(&pairs, "exclude").into_iter().map(|v| v.to_string()).collect();
    let excludes = parse_excludes_from_params(&exclude);
    assert_eq!(excludes.len(), 6);
    assert!(excludes.iter().any(|v| v == "HTML"));
    assert!(excludes.iter().any(|v| v == "Jupyter Notebook"));
}
