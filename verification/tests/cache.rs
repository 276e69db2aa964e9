use grouse::cache::Cache;
use grouse::digest::Digest;
use std::cell::Cell;

#[test]
fn new_cache_knows_nothing() {
    let cache = Cache::new();
    assert_eq!(cache.get("a.txt"), None);
    assert_eq!(cache.get(""), None);
}

#[test]
fn computes_once_per_path() {
    let calls = Cell::new(0);
    let mut cache = Cache::new();
    let first: Result<Digest, String> = cache.get_or_try_set("/assets/a.txt", |path| {
        calls.set(calls.get() + 1);
        assert_eq!(path, "/assets/a.txt");
        Ok(Digest::of(b"hello"))
    });
    let second: Result<Digest, String> = cache.get_or_try_set("/assets/a.txt", |_| {
        calls.set(calls.get() + 1);
        Ok(Digest::of(b"something else"))
    });
    assert_eq!(calls.get(), 1);
    assert_eq!(first, Ok(Digest::of(b"hello")));
    assert_eq!(second, first);
    assert_eq!(cache.get("/assets/a.txt"), Some(Digest::of(b"hello")));
}

#[test]
fn second_lookup_never_runs_the_computation() {
    let mut cache = Cache::new();
    let first: Result<Digest, String> =
        cache.get_or_try_set("a", |_| Ok(Digest::of(b"content")));
    let second: Result<Digest, String> =
        cache.get_or_try_set("a", |_| panic!("computed twice"));
    assert_eq!(first, second);
}

#[test]
fn failure_is_not_remembered() {
    let calls = Cell::new(0);
    let mut cache = Cache::new();
    let failed: Result<Digest, String> = cache.get_or_try_set("a.txt", |_| {
        calls.set(calls.get() + 1);
        Err("unreadable".to_string())
    });
    assert_eq!(failed, Err("unreadable".to_string()));
    assert_eq!(cache.get("a.txt"), None);
    let retried: Result<Digest, String> = cache.get_or_try_set("a.txt", |_| {
        calls.set(calls.get() + 1);
        Ok(Digest::of(b"hello"))
    });
    assert_eq!(retried, Ok(Digest::of(b"hello")));
    assert_eq!(calls.get(), 2);
    assert_eq!(cache.get("a.txt"), Some(Digest::of(b"hello")));
}

#[test]
fn paths_are_remembered_apart() {
    let mut cache = Cache::new();
    let a: Result<Digest, String> = cache.get_or_try_set("a.txt", |_| Ok(Digest::of(b"one")));
    let b: Result<Digest, String> = cache.get_or_try_set("b.txt", |_| Ok(Digest::of(b"two")));
    let prefix: Result<Digest, String> = cache.get_or_try_set("a", |_| Ok(Digest::of(b"three")));
    assert_eq!(a, Ok(Digest::of(b"one")));
    assert_eq!(b, Ok(Digest::of(b"two")));
    assert_eq!(prefix, Ok(Digest::of(b"three")));
    assert_eq!(cache.get("a.txt"), Some(Digest::of(b"one")));
    assert_eq!(cache.get("b.txt"), Some(Digest::of(b"two")));
    assert_eq!(cache.get("a"), Some(Digest::of(b"three")));
    assert_eq!(cache.get("a.tx"), None);
}

#[test]
fn same_content_under_two_paths_is_computed_for_each() {
    let calls = Cell::new(0);
    let mut cache = Cache::new();
    for path in ["a.txt", "b.txt", "a.txt", "b.txt"] {
        let found: Result<Digest, String> = cache.get_or_try_set(path, |_| {
            calls.set(calls.get() + 1);
            Ok(Digest::of(b"hello"))
        });
        assert_eq!(found, Ok(Digest::of(b"hello")));
    }
    assert_eq!(calls.get(), 2);
}

#[test]
fn settle_remembers_a_digest() {
    let mut cache = Cache::new();
    let found: Result<Digest, String> = cache.settle("a.txt", Ok(Digest::of(b"hello")));
    assert_eq!(found, Ok(Digest::of(b"hello")));
    assert_eq!(cache.get("a.txt"), Some(Digest::of(b"hello")));
}

#[test]
fn settle_never_replaces_a_digest() {
    let mut cache = Cache::new();
    let _: Result<Digest, String> = cache.settle("a.txt", Ok(Digest::of(b"hello")));
    let again: Result<Digest, String> = cache.settle("a.txt", Ok(Digest::of(b"world")));
    assert_eq!(again, Ok(Digest::of(b"hello")));
    let failed: Result<Digest, String> = cache.settle("a.txt", Err("late".to_string()));
    assert_eq!(failed, Ok(Digest::of(b"hello")));
    assert_eq!(cache.get("a.txt"), Some(Digest::of(b"hello")));
}

#[test]
fn settle_hands_a_failure_on() {
    let mut cache = Cache::new();
    let failed: Result<Digest, String> = cache.settle("a.txt", Err("unreadable".to_string()));
    assert_eq!(failed, Err("unreadable".to_string()));
    assert_eq!(cache.get("a.txt"), None);
}
