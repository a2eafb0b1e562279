use language_stats::stats::{
    aggregate_top_six, apply_excludes, exclude_cache_key, language_stats_from_map, parse_excludes,
    parse_excludes_from_params, top_six_fits, StatsError,
};
use language_stats::totals::ByteTotals;

fn sample_totals() -> ByteTotals {
    ByteTotals::from_pairs(vec![
        ("Rust".to_string(), 100),
        ("JavaScript".to_string(), 80),
        ("CSS".to_string(), 20),
        ("C++".to_string(), 500),
        ("C".to_string(), 10),
    ])
}

#[test]
fn parse_excludes_splits_and_trims() {
    assert_eq!(
        parse_excludes(Some(" Rust , JavaScript , ,CSS ")),
        vec!["Rust", "JavaScript", "CSS"]
    );
    assert!(parse_excludes(None).is_empty());
}

#[test]
fn exclude_cache_key_is_order_independent() {
    assert_eq!(
        exclude_cache_key(&["CSS".into(), "Rust".into()]),
        exclude_cache_key(&["Rust".into(), "CSS".into()])
    );
}

#[test]
fn apply_excludes_is_case_insensitive() {
    let filtered = apply_excludes(sample_totals(), &["javascript".into()]).unwrap();
    assert_eq!(filtered.len(), 4);
    assert!(!filtered.contains_key("JavaScript"));
}

#[test]
fn parse_excludes_decodes_plus_as_space() {
    assert_eq!(parse_excludes(Some("C  ")), vec!["C++"]);
    assert_eq!(parse_excludes(Some("Python,C  ")), vec!["Python", "C++"]);
}

#[test]
fn apply_excludes_handles_plus_decoded_as_space() {
    // Simulates ?exclude=C++ where query parsing turns '+' into spaces.
    let filtered = apply_excludes(sample_totals(), &["C  ".into()]).unwrap();
    assert!(!filtered.contains_key("C++"));
    assert!(filtered.contains_key("C"));
    assert_eq!(filtered.len(), 4);
}

#[test]
fn apply_excludes_handles_c_plus_plus_literal() {
    let filtered = apply_excludes(sample_totals(), &["C++".into()]).unwrap();
    assert!(!filtered.contains_key("C++"));
}

#[test]
fn parse_excludes_from_params_merges_repeated_values() {
    let merged = parse_excludes_from_params(&["Python,TypeScript".into(), "CSS".into()]);
    assert_eq!(merged.len(), 3);
    assert!(merged.iter().any(|v| v.eq_ignore_ascii_case("Python")));
    assert!(merged.iter().any(|v| v.eq_ignore_ascii_case("TypeScript")));
    assert!(merged.iter().any(|v| v.eq_ignore_ascii_case("CSS")));

    assert_eq!(
        parse_excludes_from_params(&["Python".into(), "TypeScript".into()]),
        vec!["Python", "TypeScript"]
    );
}

#[test]
fn apply_excludes_handles_c_sharp() {
    let totals = ByteTotals::from_pairs(vec![("C#".to_string(), 100), ("Rust".to_string(), 50)]);
    let filtered = apply_excludes(totals, &["C#".into()]).unwrap();
    assert!(!filtered.contains_key("C#"));
    assert_eq!(filtered.len(), 1);
}

#[test]
fn aggregate_top_six_omits_other_bucket() {
    let totals = ByteTotals::from_pairs(vec![
        ("A".to_string(), 100),
        ("B".to_string(), 90),
        ("C".to_string(), 80),
        ("D".to_string(), 70),
        ("E".to_string(), 60),
        ("F".to_string(), 50),
        ("G".to_string(), 40),
        ("H".to_string(), 30),
    ]);
    let stats = aggregate_top_six(totals).unwrap();
    assert_eq!(stats.len(), 6);
    assert!(stats.iter().all(|s| s.name != "Other"));
    assert!(stats.iter().any(|s| s.name == "A"));
    assert!(!stats.iter().any(|s| s.name == "G" || s.name == "H"));
    let pct_sum: f64 = stats
        .iter()
        .map(|s| s.bytes as f64 / s.total_bytes as f64 * 100.0)
        .sum();
    assert!((pct_sum - 100.0).abs() < 0.01);
}

#[test]
fn apply_excludes_errors_when_nothing_remains() {
    let err = apply_excludes(
        sample_totals(),
        &[
            "Rust".into(),
            "JavaScript".into(),
            "CSS".into(),
            "C++".into(),
            "C".into(),
        ],
    )
    .err()
    .unwrap();
    assert!(err.message().contains("no languages remain"));
    assert_eq!(err, StatsError::NoLanguagesRemain);
}

#[test]
fn apply_excludes_without_excludes_keeps_everything() {
    let filtered = apply_excludes(sample_totals(), &[]).unwrap();
    assert_eq!(filtered.len(), 5);
    let filtered = apply_excludes(sample_totals(), &["  ".into(), "+".into()]).unwrap();
    assert_eq!(filtered.len(), 5);
}

#[test]
fn apply_excludes_trims_and_lowercases_language_names() {
    let totals = ByteTotals::from_pairs(vec![(" Go ".to_string(), 5), ("Rust".to_string(), 7)]);
    let filtered = apply_excludes(totals, &["GO".into()]).unwrap();
    assert_eq!(filtered.len(), 1);
    assert!(filtered.contains_key("Rust"));
}

#[test]
fn exclude_cache_key_sorts_normalises_and_drops_empty() {
    assert_eq!(
        exclude_cache_key(&["Rust".into(), " ".into(), "CSS".into(), "C  ".into()]),
        "c++,css,rust"
    );
    assert_eq!(exclude_cache_key(&[]), "");
}

#[test]
fn parse_excludes_from_params_drops_ascii_case_duplicates() {
    let merged = parse_excludes_from_params(&["rust,Go".into(), "RUST".into(), "go".into()]);
    assert_eq!(merged, vec!["Go", "rust"]);
}

#[test]
fn decode_single_trailing_plus_dropped_only_alone() {
    assert_eq!(parse_excludes(Some("+C+")), vec!["C"]);
    assert_eq!(parse_excludes(Some("C++")), vec!["C++"]);
    assert_eq!(parse_excludes(Some("++")), Vec::<String>::new());
}

#[test]
fn language_stats_are_ordered_by_bytes_then_name() {
    let totals = ByteTotals::from_pairs(vec![
        ("b".to_string(), 10),
        ("a".to_string(), 10),
        ("c".to_string(), 30),
    ]);
    let stats = language_stats_from_map(&totals);
    let names: Vec<&str> = stats.iter().map(|s| s.name.as_str()).collect();
    assert_eq!(names, vec!["c", "a", "b"]);
    assert!(stats.iter().all(|s| s.total_bytes == 50));
}

#[test]
fn aggregate_top_six_errors_without_data() {
    let err = aggregate_top_six(ByteTotals::new()).err().unwrap();
    assert_eq!(err, StatsError::NoLanguageData);
    assert_eq!(err.message(), "no language data to chart");
}

#[test]
fn aggregate_top_six_total_is_of_the_six() {
    let totals = ByteTotals::from_pairs(vec![
        ("A".to_string(), 1),
        ("B".to_string(), 2),
        ("C".to_string(), 3),
        ("D".to_string(), 4),
        ("E".to_string(), 5),
        ("F".to_string(), 6),
        ("G".to_string(), 7),
    ]);
    let stats = aggregate_top_six(totals).unwrap();
    assert_eq!(stats[0].name, "G");
    assert_eq!(stats[5].name, "B");
    assert!(stats.iter().all(|s| s.total_bytes == 27));
}

#[test]
fn top_six_is_the_start_of_the_full_chart() {
    let pairs = vec![
        ("Go".to_string(), 70),
        ("Rust".to_string(), 300),
        ("C".to_string(), 70),
        ("Zig".to_string(), 5),
        ("Lua".to_string(), 12),
        ("Nim".to_string(), 90),
        ("Ada".to_string(), 12),
        ("Elm".to_string(), 1),
    ];
    let full = language_stats_from_map(&ByteTotals::from_pairs(pairs.clone()));
    let top = aggregate_top_six(ByteTotals::from_pairs(pairs)).unwrap();
    let full_names: Vec<&str> = full.iter().take(6).map(|s| s.name.as_str()).collect();
    let top_names: Vec<&str> = top.iter().map(|s| s.name.as_str()).collect();
    assert_eq!(top_names, full_names);
    assert_eq!(top_names, vec!["Rust", "Nim", "C", "Go", "Ada", "Lua"]);
}

#[test]
fn chart_order_does_not_depend_on_holding_order() {
    let forward = vec![
        ("b".to_string(), 3),
        ("a".to_string(), 3),
        ("c".to_string(), 9),
        ("d".to_string(), 1),
    ];
    let mut backward = forward.clone();
    backward.reverse();
    let x = language_stats_from_map(&ByteTotals::from_pairs(forward));
    let y = language_stats_from_map(&ByteTotals::from_pairs(backward));
    let xs: Vec<(&str, u64)> = x.iter().map(|s| (s.name.as_str(), s.bytes)).collect();
    let ys: Vec<(&str, u64)> = y.iter().map(|s| (s.name.as_str(), s.bytes)).collect();
    assert_eq!(xs, ys);
    assert_eq!(xs, vec![("c", 9), ("a", 3), ("b", 3), ("d", 1)]);
}

#[test]
fn top_six_fits_looks_only_at_the_six_charted() {
    let mut pairs = vec![("Huge".to_string(), u64::MAX - 10)];
    for name in ["A", "B", "C", "D", "E"] {
        pairs.push((name.to_string(), 2));
    }
    pairs.push(("Tiny".to_string(), 1));
    let totals = ByteTotals::from_pairs(pairs);
    assert!(totals.total_bytes().is_none());
    assert!(top_six_fits(&totals));
    let stats = aggregate_top_six(totals).unwrap();
    assert_eq!(stats.len(), 6);
    assert!(stats.iter().all(|s| s.name != "Tiny" && s.total_bytes == u64::MAX));
    let over = ByteTotals::from_pairs(vec![("X".to_string(), u64::MAX), ("Y".to_string(), 1)]);
    assert!(!top_six_fits(&over));
    assert!(top_six_fits(&ByteTotals::new()));
}

#[test]
fn equal_exclude_keys_remove_the_same_languages() {
    let a = vec!["CSS".to_string(), " rust".to_string()];
    let b = vec!["rust".to_string(), "css".to_string(), "".to_string()];
    assert_eq!(exclude_cache_key(&a), exclude_cache_key(&b));
    let left_a = apply_excludes(sample_totals(), &a).unwrap();
    let left_b = apply_excludes(sample_totals(), &b).unwrap();
    assert_eq!(left_a.pairs(), left_b.pairs());
    assert_eq!(left_a.len(), 3);
}

#[test]
fn a_comma_inside_one_exclude_reads_as_two_names_in_the_key() {
    let one = vec!["c,css".to_string()];
    let two = vec!["C".to_string(), "CSS".to_string()];
    assert_eq!(exclude_cache_key(&one), exclude_cache_key(&two));
    assert_eq!(apply_excludes(sample_totals(), &one).unwrap().len(), 5);
    assert_eq!(apply_excludes(sample_totals(), &two).unwrap().len(), 3);
}

#[test]
fn spaces_inside_a_name_stay() {
    assert_eq!(parse_excludes(Some("Jupyter Notebook")), vec!["Jupyter Notebook"]);
    assert_eq!(parse_excludes(Some(" Jupyter Notebook ,C  ")), vec!["Jupyter Notebook", "C++"]);
    assert_eq!(parse_excludes(Some("C +")), vec!["C++"]);
    assert_eq!(parse_excludes(Some("  +Go")), vec!["Go"]);
}

#[test]
fn merging_a_merged_list_changes_nothing() {
    let once = parse_excludes_from_params(&["rust, Go,C  ".into(), "RUST".into(), "Jupyter Notebook ".into()]);
    assert_eq!(once, vec!["C++", "Go", "Jupyter Notebook", "rust"]);
    let twice = parse_excludes_from_params(&once);
    assert_eq!(twice, once);
}
