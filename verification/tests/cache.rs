use language_stats::cache::{
    compute_etag, format_etag, is_not_modified, timestamp_nanos_opt, variant_cache_key, AppCache, CacheError, CacheVariant, Timestamp,
    UserCache, VariantPlan,
};
use language_stats::models::LanguageTotals;
use language_stats::stats::StatsError;
use language_stats::totals::ByteTotals;

fn user_cache() -> UserCache {
    let mut totals = LanguageTotals::new();
    totals.with_org = ByteTotals::from_pairs(vec![("Rust".to_string(), 100), ("Go".to_string(), 50)]);
    UserCache::from_refresh(totals, Timestamp { secs: 1_000, nanos: 0 }).ok().unwrap().0
}

#[test]
fn etag_is_quoted_lowercase_hex() {
    assert_eq!(format_etag(0), "\"0\"");
    assert_eq!(format_etag(255), "\"ff\"");
    assert_eq!(format_etag(u64::MAX), "\"ffffffffffffffff\"");
    let e = compute_etag(b"<svg/>", Timestamp { secs: 1, nanos: 2 }, "k");
    assert!(e.starts_with('"') && e.ends_with('"'));
    assert_eq!(e, compute_etag(b"<svg/>", Timestamp { secs: 1, nanos: 2 }, "k"));
}

#[test]
fn nanos_fit_or_not() {
    assert_eq!(timestamp_nanos_opt(Timestamp { secs: 1, nanos: 5 }), Some(1_000_000_005));
    assert_eq!(timestamp_nanos_opt(Timestamp { secs: i64::MAX, nanos: 0 }), None);
    assert_eq!(timestamp_nanos_opt(Timestamp { secs: -1, nanos: 0 }), Some(-1_000_000_000));
}

#[test]
fn staleness_after_thirty_minutes() {
    let c = user_cache();
    assert!(!c.is_stale(Timestamp { secs: 1_000 + 1800, nanos: 0 }));
    assert!(c.is_stale(Timestamp { secs: 1_000 + 1800, nanos: 1 }));
}

#[test]
fn variant_key_combines_excludes_and_flags() {
    assert_eq!(
        variant_cache_key(&["Rust".into(), "css".into()], true, false, true),
        "css,rust;org=true;username=false;minimal=true"
    );
}

#[test]
fn render_plan_then_cached() {
    let mut c = user_cache();
    let plan = c.render_variant(&[], true, true, false).ok().unwrap();
    let key = match plan {
        VariantPlan::Render { key, stats } => {
            assert_eq!(stats.len(), 2);
            assert_eq!(stats[0].name, "Rust");
            assert_eq!(stats[0].total_bytes, 150);
            key
        }
        VariantPlan::Cached(_) => panic!("nothing is cached yet"),
    };
    assert!(c.get_variant(&[], true, true, false).is_none());
    c.insert_variant(key, CacheVariant { image_svg: vec![1, 2], language_stats: vec![], etag: "\"1\"".to_string() });
    assert_eq!(c.get_variant(&[], true, true, false).unwrap().etag, "\"1\"");
    assert!(matches!(c.render_variant(&[], true, true, false), Ok(VariantPlan::Cached(_))));
}

#[test]
fn render_plan_errors() {
    let c = user_cache();
    assert_eq!(c.render_variant(&[], false, true, false).err().unwrap(), CacheError::NoPersonalData);
    assert_eq!(
        c.render_variant(&["rust".into(), "GO".into()], true, true, false).err().unwrap(),
        CacheError::Stats(StatsError::NoLanguagesRemain)
    );
    assert_eq!(CacheError::NoPersonalData.message(), "no personal repository language data found");
    assert_eq!(CacheError::TotalsOverflow.message(), "attempt to add with overflow");
}

#[test]
fn from_refresh_plans_the_default_chart() {
    let mut totals = LanguageTotals::new();
    totals.with_org = ByteTotals::from_pairs(vec![("Go".to_string(), 5), ("Rust".to_string(), 9)]);
    totals.personal_only = ByteTotals::from_pairs(vec![("Go".to_string(), 5)]);
    let (c, key, stats) = UserCache::from_refresh(totals, Timestamp { secs: 7, nanos: 0 }).ok().unwrap();
    assert_eq!(key, ";org=true;username=true;minimal=false");
    assert_eq!(stats.iter().map(|s| s.name.as_str()).collect::<Vec<_>>(), vec!["Rust", "Go"]);
    assert!(c.variants.is_empty());
    assert_eq!(c.raw_totals_personal.get("Go"), Some(5));
    assert_eq!(c.last_updated, Timestamp { secs: 7, nanos: 0 });
}

#[test]
fn from_refresh_errors() {
    let empty = UserCache::from_refresh(LanguageTotals::new(), Timestamp { secs: 0, nanos: 0 });
    assert_eq!(empty.err().unwrap(), CacheError::Stats(StatsError::NoLanguageData));
    let mut totals = LanguageTotals::new();
    totals.with_org = ByteTotals::from_pairs(vec![("Go".to_string(), u64::MAX), ("Rust".to_string(), 1)]);
    let big = UserCache::from_refresh(totals, Timestamp { secs: 0, nanos: 0 });
    assert_eq!(big.err().unwrap(), CacheError::TotalsOverflow);
}

#[test]
fn render_plan_overflow_only_in_the_six_charted() {
    let mut totals = LanguageTotals::new();
    let mut pairs = vec![("Huge".to_string(), u64::MAX - 10)];
    for name in ["A", "B", "C", "D", "E"] {
        pairs.push((name.to_string(), 2));
    }
    pairs.push(("Tiny".to_string(), 1));
    totals.with_org = ByteTotals::from_pairs(pairs);
    totals.personal_only = ByteTotals::from_pairs(vec![("P".to_string(), u64::MAX), ("Q".to_string(), 1)]);
    let (c, _, stats) = UserCache::from_refresh(totals, Timestamp { secs: 0, nanos: 0 }).ok().unwrap();
    assert_eq!(stats.len(), 6);
    assert_eq!(stats[0].total_bytes, u64::MAX);
    assert_eq!(c.render_variant(&[], false, false, false).err().unwrap(), CacheError::TotalsOverflow);
    assert!(matches!(c.render_variant(&["q".to_string()], false, false, false), Ok(VariantPlan::Render { .. })));
}

#[test]
fn users_are_keyed_in_lowercase() {
    let mut app = AppCache::new();
    assert!(app.get_user("Octo").is_none());
    app.upsert_user("Octo", user_cache());
    assert!(app.get_user("octo").is_some());
    assert!(app.get_user("OCTO").is_some());
    assert_eq!(AppCache::cache_key("ÄBC"), "äbc");
    app.upsert_user("OCTO", user_cache());
    assert_eq!(app.users.len(), 1);
    let etag = app.store_rendered("octo", "k".to_string(), vec![7], vec![]).unwrap();
    assert!(etag.starts_with('"') && etag.ends_with('"'));
    let user = app.get_user("Octo").unwrap();
    assert_eq!(user.variants.len(), 1);
    assert_eq!(user.variants[0].0, "k");
    assert_eq!(user.variants[0].1.image_svg, vec![7]);
    assert_eq!(user.variants[0].1.etag, etag);
    assert!(app.store_rendered("nobody", "k".to_string(), vec![], vec![]).is_none());
}

#[test]
fn variant_key_ignores_exclude_order_and_separates_flags() {
    let a = variant_cache_key(&["CSS".to_string(), "Rust".to_string()], true, false, true);
    let b = variant_cache_key(&["Rust".to_string(), "css".to_string()], true, false, true);
    assert_eq!(a, b);
    assert_eq!(a, "css,rust;org=true;username=false;minimal=true");
    let flags = [
        (false, false, false),
        (false, false, true),
        (false, true, false),
        (false, true, true),
        (true, false, false),
        (true, false, true),
        (true, true, false),
        (true, true, true),
    ];
    let excludes = vec!["Go".to_string()];
    let keys: Vec<String> = flags.iter().map(|&(o, u, m)| variant_cache_key(&excludes, o, u, m)).collect();
    for i in 0..keys.len() {
        for j in 0..keys.len() {
            assert_eq!(keys[i] == keys[j], i == j);
        }
    }
}

#[test]
fn not_modified_only_for_the_exact_etag() {
    let etag = "\"1f\"";
    assert!(is_not_modified(Some(b"\"1f\""), etag));
    assert!(!is_not_modified(Some(b"\"1F\""), etag));
    assert!(!is_not_modified(Some(b"\"1f"), etag));
    assert!(!is_not_modified(Some(b""), etag));
    assert!(!is_not_modified(None, etag));
}

#[test]
fn store_rendered_keeps_the_chart_with_its_etag() {
    let mut c = user_cache();
    let plan = c.render_variant(&[], true, true, false).ok().unwrap();
    let (key, stats) = match plan {
        VariantPlan::Render { key, stats } => (key, stats),
        VariantPlan::Cached(_) => panic!("nothing is cached yet"),
    };
    let expected = compute_etag(b"<svg/>", c.last_updated, &key);
    let etag = c.store_rendered(key.clone(), b"<svg/>".to_vec(), stats);
    assert_eq!(etag, expected);
    let v = c.get_variant(&[], true, true, false).unwrap();
    assert_eq!(v.image_svg, b"<svg/>".to_vec());
    assert_eq!(v.etag, etag);
    assert_eq!(v.language_stats.len(), 2);
    let again = c.store_rendered(key, b"<svg></svg>".to_vec(), vec![]);
    assert_eq!(c.variants.len(), 1);
    assert_eq!(c.get_variant(&[], true, true, false).unwrap().etag, again);
}
