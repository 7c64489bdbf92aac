use compactor::cache::{validate_resolution, CacheState, LookupDecision, ResidentLifecycle};
use compactor::source::RawRedirect;
use compactor::{CanonicalUrl, RedirectCachePolicy, RedirectDefinition, RedirectSourceError};

fn canonical(path: &str) -> CanonicalUrl {
    CanonicalUrl::parse(&format!("https://example.com/{path}")).unwrap()
}

fn definition(path: &str, destination: &str) -> RedirectDefinition {
    RawRedirect {
        id: path.to_owned(),
        canonical_url: format!("https://example.com/{path}"),
        redirect_url: destination.to_owned(),
        status_code: 308,
        response_headers: Vec::new(),
    }
    .into_definition()
    .unwrap()
}

fn destination(decision: &LookupDecision) -> &str {
    match decision {
        LookupDecision::Return(d) | LookupDecision::Refresh(d) => d.redirect_url.as_str(),
        _ => panic!("expected a resident definition"),
    }
}

#[test]
fn insertion_does_not_evict_a_refreshing_entry() {
    let now = 0;
    let mut cache = CacheState::new();
    cache.insert(canonical("a"), definition("a", "https://destination.example/a"), now, 1);
    assert!(matches!(cache.lookup(&canonical("a"), now), LookupDecision::Refresh(_)));
    assert_eq!(cache.lifecycle_of(&canonical("a")), Some(ResidentLifecycle::Refreshing));
    cache.insert(canonical("b"), definition("b", "https://destination.example/b"), now, 1);
    assert!(cache.contains(&canonical("a")));
    assert!(!cache.contains(&canonical("b")));
}

#[test]
fn least_recently_used_evictable_entry_is_evicted() {
    let mut cache = CacheState::new();
    cache.insert(canonical("a"), definition("a", "https://destination.example/a"), 100, 2);
    cache.insert(canonical("b"), definition("b", "https://destination.example/b"), 100, 2);
    assert!(matches!(cache.lookup(&canonical("a"), 0), LookupDecision::Return(_)));
    cache.insert(canonical("c"), definition("c", "https://destination.example/c"), 100, 2);
    assert!(cache.contains(&canonical("a")));
    assert!(!cache.contains(&canonical("b")));
    assert!(cache.contains(&canonical("c")));
    assert_eq!(cache.len(), 2);
}

#[test]
fn cold_loads_are_shared_and_only_found_definitions_are_cached() {
    let mut cache = CacheState::new();
    let key = canonical("found");
    assert!(matches!(cache.lookup(&key, 0), LookupDecision::Load));
    assert!(cache.is_load_in_flight(&key));
    assert!(matches!(cache.lookup(&key, 0), LookupDecision::Wait));
    let answers = cache.finish_cold_load(
        &key,
        Ok(Some(definition("found", "https://destination.example/one"))),
        60,
        10,
    );
    assert_eq!(answers.len(), 2);
    for answer in &answers {
        match answer {
            Ok(Some(d)) => assert_eq!(d.redirect_url.as_str(), "https://destination.example/one"),
            _ => panic!("every waiter gets the found definition"),
        }
    }
    assert!(!cache.is_load_in_flight(&key));
    assert_eq!(destination(&cache.lookup(&key, 1)), "https://destination.example/one");

    let missing = canonical("missing");
    assert!(matches!(cache.lookup(&missing, 0), LookupDecision::Load));
    let answers = cache.finish_cold_load(&missing, Ok(None), 60, 10);
    assert_eq!(answers.len(), 1);
    assert!(matches!(answers[0], Ok(None)));
    assert!(!cache.contains(&missing));
    assert!(matches!(cache.lookup(&missing, 0), LookupDecision::Load));
    assert!(matches!(cache.lookup(&missing, 0), LookupDecision::Wait));
    assert!(matches!(cache.lookup(&missing, 0), LookupDecision::Wait));
    let failed = cache.finish_cold_load(&missing, Err(RedirectSourceError::new("offline".to_owned())), 60, 10);
    assert_eq!(failed.len(), 3);
    for answer in &failed {
        assert_eq!(answer.as_ref().unwrap_err().message(), "offline");
    }
    assert!(!cache.contains(&missing));
    assert_eq!(cache.len(), 1);
}

#[test]
fn stale_lookup_is_served_while_one_refresh_replaces_it() {
    let mut cache = CacheState::new();
    let key = canonical("key");
    cache.insert(key.clone(), definition("key", "https://destination.example/old"), 10, 10);
    assert!(matches!(cache.lookup(&key, 9), LookupDecision::Return(_)));
    let stale = cache.lookup(&key, 10);
    assert!(matches!(stale, LookupDecision::Refresh(_)));
    assert_eq!(destination(&stale), "https://destination.example/old");
    let again = cache.lookup(&key, 11);
    assert!(matches!(again, LookupDecision::Return(_)));
    assert_eq!(destination(&again), "https://destination.example/old");
    let failure = cache.finish_refresh(&key, Ok(Some(definition("key", "https://destination.example/new"))), 30, 0);
    assert!(failure.is_none());
    assert_eq!(cache.lifecycle_of(&key), Some(ResidentLifecycle::Fresh { expires_at: 30 }));
    assert_eq!(destination(&cache.lookup(&key, 12)), "https://destination.example/new");
}

#[test]
fn refresh_miss_removes_and_refresh_error_keeps_stale_until_retry() {
    let mut cache = CacheState::new();
    let key = canonical("key");
    cache.insert(key.clone(), definition("key", "https://destination.example/old"), 10, 10);
    assert!(matches!(cache.lookup(&key, 10), LookupDecision::Refresh(_)));
    let failure = cache.finish_refresh(&key, Err(RedirectSourceError::new("offline".to_owned())), 50, 40);
    assert_eq!(failure.unwrap().message(), "offline");
    assert_eq!(cache.lifecycle_of(&key), Some(ResidentLifecycle::Stale { retry_after: 40 }));
    assert!(matches!(cache.lookup(&key, 39), LookupDecision::Return(_)));
    assert!(matches!(cache.lookup(&key, 40), LookupDecision::Refresh(_)));
    assert!(cache.finish_refresh(&key, Ok(None), 90, 80).is_none());
    assert!(!cache.contains(&key));
    assert!(matches!(cache.lookup(&key, 41), LookupDecision::Load));
}

#[test]
fn mismatched_definitions_are_source_errors() {
    let validated = validate_resolution(
        &canonical("asked"),
        Ok(Some(definition("other", "https://destination.example/x"))),
    );
    assert_eq!(
        validated.unwrap_err().message(),
        "source returned canonical URL https://example.com/other for lookup https://example.com/asked"
    );
    let mut cache = CacheState::new();
    let key = canonical("asked");
    assert!(matches!(cache.lookup(&key, 0), LookupDecision::Load));
    let loaded = cache.finish_cold_load(&key, Ok(Some(definition("other", "https://destination.example/x"))), 60, 10);
    assert_eq!(loaded.len(), 1);
    assert!(loaded[0].is_err());
    assert!(!cache.contains(&key));
    assert!(!cache.is_load_in_flight(&key));
    assert!(matches!(cache.lookup(&key, 1), LookupDecision::Load));
}

#[test]
fn refresh_result_for_an_entry_not_refreshing_changes_nothing() {
    let mut cache = CacheState::new();
    let key = canonical("key");
    cache.insert(key.clone(), definition("key", "https://destination.example/old"), 100, 10);
    assert!(cache.finish_refresh(&key, Ok(None), 200, 200).is_none());
    assert!(cache.contains(&key));
    assert_eq!(cache.lifecycle_of(&key), Some(ResidentLifecycle::Fresh { expires_at: 100 }));
}

#[test]
fn every_resident_refreshing_leaves_a_found_result_uncached() {
    let mut cache = CacheState::new();
    cache.insert(canonical("a"), definition("a", "https://destination.example/a"), 10, 1);
    assert!(matches!(cache.lookup(&canonical("a"), 10), LookupDecision::Refresh(_)));
    let key = canonical("b");
    assert!(matches!(cache.lookup(&key, 11), LookupDecision::Load));
    let result = cache.finish_cold_load(&key, Ok(Some(definition("b", "https://destination.example/b"))), 70, 1);
    assert_eq!(result.len(), 1);
    assert!(matches!(result[0], Ok(Some(_))));
    assert!(!cache.contains(&key));
    assert!(matches!(cache.lookup(&key, 12), LookupDecision::Load));
}

#[test]
fn recency_counts_up() {
    let mut cache = CacheState::new();
    let first = cache.next_recency();
    let second = cache.next_recency();
    assert_eq!(second, first + 1);
}

#[test]
fn cache_policy_keeps_its_settings() {
    let policy = RedirectCachePolicy::new(300_000, 10_000);
    assert_eq!(policy.freshness_ttl_ms, 300_000);
    assert_eq!(policy.max_entries, 10_000);
}

#[test]
fn policy_times_saturate_at_the_clock_end() {
    let policy = RedirectCachePolicy::from_seconds(300, 10);
    assert_eq!(policy.freshness_ttl_ms, 300_000);
    assert_eq!(policy.expires_at(1_000), 301_000);
    assert_eq!(policy.retry_after(1_000), 31_000);
    assert_eq!(policy.expires_at(u64::MAX - 1), u64::MAX);
    assert_eq!(RedirectCachePolicy::from_seconds(u64::MAX, 1).freshness_ttl_ms, u64::MAX);
}

#[test]
fn the_largest_limit_is_accepted() {
    let mut cache = CacheState::new();
    cache.insert(canonical("a"), definition("a", "https://destination.example/a"), 100, usize::MAX);
    cache.insert(canonical("b"), definition("b", "https://destination.example/b"), 100, usize::MAX);
    assert_eq!(cache.len(), 2);
    let key = canonical("c");
    assert!(matches!(cache.lookup(&key, 0), LookupDecision::Load));
    let answers = cache.finish_cold_load(&key, Ok(Some(definition("c", "https://destination.example/c"))), 100, usize::MAX);
    assert_eq!(answers.len(), 1);
    assert_eq!(cache.len(), 3);
}
