use grouse::cache::Cache;
use grouse::digest::Digest;
use grouse::manifest::{digest, Entry, Manifest, Scanner};
use std::cell::Cell;

const HELLO: &str = "2cf24dba5fb0a30e26e83b2ac5b9e29e1b161e5c1fa7425e73043362938b9824";
const WORLD: &str = "486ea46224d1bb4fb680f34f7c9ad96a8f24ec88be73ea8e5a6c65260e9cb8a7";

fn entry(path: &str, content: &[u8]) -> Entry {
    Entry::new(Digest::of(content), path.to_string())
}

fn paths(manifest: &Manifest) -> Vec<String> {
    manifest.entries().iter().map(|entry| entry.path().to_string()).collect()
}

fn keys(manifest: &Manifest) -> Vec<String> {
    manifest.entries().iter().map(|entry| entry.digest().to_hex().as_str().to_string()).collect()
}

#[test]
fn entry_holds_what_it_was_given() {
    let made = entry("/assets/a.txt", b"hello");
    assert_eq!(made.path(), "/assets/a.txt");
    assert_eq!(made.digest(), Digest::of(b"hello"));
    assert_eq!(made.digest().to_hex().as_str(), HELLO);
}

#[test]
fn entry_name_is_the_last_component() {
    assert_eq!(entry("/assets/css/site.css", b"x").name(), Some("site.css".to_string()));
    assert_eq!(entry("a.txt", b"x").name(), Some("a.txt".to_string()));
    assert_eq!(entry("/assets/dir/", b"x").name(), Some("dir".to_string()));
    assert_eq!(entry("/", b"x").name(), None);
    assert_eq!(entry("/assets/..", b"x").name(), None);
}

#[test]
fn entry_mime_is_guessed_from_the_extension() {
    assert_eq!(entry("/assets/a.txt", b"x").mime(), "text/plain");
    assert_eq!(entry("/assets/site.css", b"x").mime(), "text/css");
    assert_eq!(entry("/assets/LOGO.PNG", b"x").mime(), "image/png");
    assert_eq!(entry("/assets/index.html", b"x").mime(), "text/html");
    assert_eq!(entry("/assets/data.json", b"x").mime(), "application/json");
}

#[test]
fn entry_mime_falls_back_to_octet_stream() {
    assert_eq!(entry("/assets/README", b"x").mime(), "application/octet-stream");
    assert_eq!(entry("/assets/a.no-such-extension", b"x").mime(), "application/octet-stream");
    assert_eq!(entry("/assets.txt/file", b"x").mime(), "application/octet-stream");
}

#[test]
fn three_files_two_contents() {
    let manifest = Manifest::assemble(vec![
        entry("a.txt", b"hello"),
        entry("b.txt", b"hello"),
        entry("c.txt", b"world"),
    ]);
    assert_eq!(manifest.entries().len(), 2);
    assert_eq!(keys(&manifest), vec![HELLO, WORLD]);
    assert_eq!(paths(&manifest), vec!["a.txt", "c.txt"]);
    assert_eq!(manifest.entries()[0].digest(), Digest::of(b"hello"));
    assert_eq!(manifest.entries()[1].digest(), Digest::of(b"world"));
}

#[test]
fn smallest_path_stands_for_the_content() {
    let manifest = Manifest::assemble(vec![
        entry("z/copy.txt", b"hello"),
        entry("b.txt", b"hello"),
        entry("a/deep/copy.txt", b"hello"),
        entry("b.txt.bak", b"hello"),
    ]);
    assert_eq!(paths(&manifest), vec!["a/deep/copy.txt"]);
    assert_eq!(keys(&manifest), vec![HELLO]);
}

#[test]
fn empty_scan_empty_manifest() {
    let manifest = Manifest::assemble(Vec::new());
    assert_eq!(manifest.entries().len(), 0);
    assert!(manifest.index().is_empty());
    let scanned = Scanner::new().finish();
    assert!(scanned.entries().is_empty());
}

#[test]
fn entries_are_in_digest_order() {
    let manifest = Manifest::assemble(vec![
        entry("a", b"a"),
        entry("b", b"b"),
        entry("c", b"c"),
        entry("hello", b"hello"),
        entry("world", b"world"),
    ]);
    assert_eq!(paths(&manifest), vec!["hello", "c", "b", "world", "a"]);
    let keys = keys(&manifest);
    for at in 1..keys.len() {
        assert!(keys[at - 1] < keys[at]);
    }
}

#[test]
fn order_of_the_scan_makes_no_difference() {
    let files: [(&str, &[u8]); 6] = [
        ("a.txt", b"hello"),
        ("b.txt", b"hello"),
        ("c.txt", b"world"),
        ("d/e.txt", b"a"),
        ("d/f.txt", b"world"),
        ("g.bin", b"b"),
    ];
    let expected =
        Manifest::assemble(files.iter().map(|(path, content)| entry(path, content)).collect());
    let orders: [[usize; 6]; 5] = [
        [5, 4, 3, 2, 1, 0],
        [1, 0, 4, 2, 5, 3],
        [2, 4, 0, 1, 3, 5],
        [3, 5, 1, 4, 0, 2],
        [4, 2, 5, 0, 3, 1],
    ];
    for order in orders {
        let shuffled = order.iter().map(|at| entry(files[*at].0, files[*at].1)).collect();
        let manifest = Manifest::assemble(shuffled);
        assert_eq!(paths(&manifest), paths(&expected));
        assert_eq!(keys(&manifest), keys(&expected));
    }
    assert_eq!(paths(&expected), vec!["a.txt", "g.bin", "c.txt", "d/e.txt"]);
}

#[test]
fn a_file_seen_twice_counts_once() {
    let manifest = Manifest::assemble(vec![
        entry("a.txt", b"hello"),
        entry("a.txt", b"hello"),
        entry("a.txt", b"hello"),
    ]);
    assert_eq!(paths(&manifest), vec!["a.txt"]);
}

#[test]
fn one_entry_per_digest() {
    let distinct = Manifest::assemble(vec![
        entry("a", b"one"),
        entry("b", b"two"),
        entry("c", b"three"),
    ]);
    assert_eq!(distinct.entries().len(), 3);
    let shared = Manifest::assemble(vec![
        entry("a", b"one"),
        entry("b", b"two"),
        entry("c", b"one"),
        entry("d", b"two"),
        entry("e", b"one"),
    ]);
    assert_eq!(shared.entries().len(), 2);
    let all_same = Manifest::assemble(vec![entry("a", b""), entry("b", b""), entry("c", b"")]);
    assert_eq!(all_same.entries().len(), 1);
}

#[test]
fn index_is_the_hex_of_each_digest() {
    let manifest = Manifest::assemble(vec![
        entry("c.txt", b"world"),
        entry("b.txt", b"hello"),
        entry("a.txt", b"hello"),
    ]);
    let index = manifest.index();
    assert_eq!(index.len(), 2);
    assert_eq!(index[0].as_str(), HELLO);
    assert_eq!(index[1].as_str(), WORLD);
    assert_eq!(index[0], manifest.entries()[0].digest().to_hex());
    assert!(index[0].as_bytes() < index[1].as_bytes());
}

#[test]
fn unresolved_reference_has_no_digest() {
    let mut cache = Cache::new();
    let outcome: Result<Option<Digest>, String> =
        digest(&mut cache, None, |_| panic!("nothing to compute"));
    assert_eq!(outcome, Ok(None));
}

#[test]
fn resolved_reference_is_digested_through_the_cache() {
    let calls = Cell::new(0);
    let mut cache = Cache::new();
    for _ in 0..3 {
        let outcome: Result<Option<Digest>, String> =
            digest(&mut cache, Some("/src/lib.rs"), |path| {
                calls.set(calls.get() + 1);
                assert_eq!(path, "/src/lib.rs");
                Ok(Digest::of(b"hello"))
            });
        assert_eq!(outcome, Ok(Some(Digest::of(b"hello"))));
    }
    assert_eq!(calls.get(), 1);
    assert_eq!(cache.get("/src/lib.rs"), Some(Digest::of(b"hello")));
}

#[test]
fn failed_reference_hands_the_error_on() {
    let mut cache = Cache::new();
    let outcome: Result<Option<Digest>, String> =
        digest(&mut cache, Some("/missing"), |_| Err("not found".to_string()));
    assert_eq!(outcome, Err("not found".to_string()));
    assert_eq!(cache.get("/missing"), None);
}

#[test]
fn direct_digest_and_scan_read_the_file_once() {
    let reads = Cell::new(0);
    let read = |path: &str| -> Result<Digest, String> {
        reads.set(reads.get() + 1);
        assert_eq!(path, "/assets/a.txt");
        Ok(Digest::of(b"hello"))
    };
    let mut cache = Cache::new();
    let direct = digest(&mut cache, Some("/assets/a.txt"), read);
    let mut scanner = Scanner::new();
    let scanned = scanner.visit(&mut cache, "/assets/a.txt", true, read);
    assert_eq!(direct, Ok(Some(Digest::of(b"hello"))));
    assert_eq!(scanned, direct);
    assert_eq!(reads.get(), 1);
    let manifest = scanner.finish();
    assert_eq!(manifest.entries()[0].digest(), Digest::of(b"hello"));
}

#[test]
fn scan_takes_regular_files_only() {
    let mut cache = Cache::new();
    let mut scanner = Scanner::new();
    let walked: [(&str, bool, &[u8]); 5] = [
        ("/assets", false, b""),
        ("/assets/a.txt", true, b"hello"),
        ("/assets/sub", false, b""),
        ("/assets/sub/b.txt", true, b"hello"),
        ("/assets/sub/c.txt", true, b"world"),
    ];
    for (path, is_file, content) in walked {
        let outcome: Result<Option<Digest>, String> = scanner.visit(&mut cache, path, is_file, |_| {
            assert!(is_file, "a directory was read");
            Ok(Digest::of(content))
        });
        let expected = if is_file { Some(Digest::of(content)) } else { None };
        assert_eq!(outcome, Ok(expected));
    }
    assert_eq!(cache.get("/assets"), None);
    assert_eq!(cache.get("/assets/sub/c.txt"), Some(Digest::of(b"world")));
    let manifest = scanner.finish();
    assert_eq!(paths(&manifest), vec!["/assets/a.txt", "/assets/sub/c.txt"]);
    assert_eq!(keys(&manifest), vec![HELLO, WORLD]);
}

fn scan(walked: &[(&str, Option<&[u8]>)]) -> Result<Manifest, String> {
    let mut cache = Cache::new();
    let mut scanner = Scanner::new();
    for (path, content) in walked {
        scanner.visit(&mut cache, path, true, |path| match content {
            Some(bytes) => Ok(Digest::of(bytes)),
            None => Err(format!("{path}: unreadable")),
        })?;
    }
    Ok(scanner.finish())
}

#[test]
fn unreadable_file_fails_the_whole_scan() {
    let outcome = scan(&[
        ("/assets/a.txt", Some(b"hello")),
        ("/assets/b.txt", None),
        ("/assets/c.txt", Some(b"world")),
    ]);
    assert_eq!(outcome.err(), Some("/assets/b.txt: unreadable".to_string()));
    let readable = scan(&[("/assets/a.txt", Some(b"hello")), ("/assets/c.txt", Some(b"world"))]);
    assert_eq!(readable.map(|manifest| paths(&manifest)), Ok(vec![
        "/assets/a.txt".to_string(),
        "/assets/c.txt".to_string(),
    ]));
}

#[test]
fn failed_visit_changes_nothing() {
    let mut cache = Cache::new();
    let mut scanner = Scanner::new();
    let first: Result<Option<Digest>, String> =
        scanner.visit(&mut cache, "/a", true, |_| Ok(Digest::of(b"hello")));
    assert_eq!(first, Ok(Some(Digest::of(b"hello"))));
    let failed: Result<Option<Digest>, String> =
        scanner.visit(&mut cache, "/b", true, |_| Err("unreadable".to_string()));
    assert_eq!(failed, Err("unreadable".to_string()));
    assert_eq!(cache.get("/b"), None);
    assert_eq!(cache.get("/a"), Some(Digest::of(b"hello")));
    assert_eq!(paths(&scanner.finish()), vec!["/a"]);
}
