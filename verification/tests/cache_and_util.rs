//! The cache against a scripted fetcher, the digest, and the small string
//! utilities.
use trove::cache::Cache;
use trove::cache::CacheError;
use trove::cache::ScriptedFetcher;
use trove::cache::locator_digest;
use trove::util::extension;
use trove::util::str_eq;
use trove::util::str_le;
use trove::util::u64_to_string;
use trove::util::url_path;
use trove::util::url_path_ext;

#[test]
fn digest_of_empty_locator() {
    assert_eq!(
        locator_digest(""),
        "e3b0c44298fc1c149afbf4c8996fb92427ae41e4649b934ca495991b7852b855"
    );
}

#[test]
fn digest_of_known_locator() {
    // SHA-256 of "abc", hex, lowercase.
    assert_eq!(
        locator_digest("abc"),
        "ba7816bf8f01cfea414140de5dae2223b00361a396177a9cb410ff61f20015ad"
    );
}

#[test]
fn two_retrieves_fetch_once() {
    let mut cache = Cache::new(String::from("cachedir"));
    let mut fetcher = ScriptedFetcher::new();
    fetcher.push_response(String::from("http://x/a"), vec![1, 2, 3]);
    fetcher.push_response(String::from("http://x/a"), vec![9, 9, 9]);
    let first = cache.retrieve(&mut fetcher, "http://x/a").unwrap();
    assert_eq!(first, vec![1, 2, 3]);
    // Exactly one scripted response was consumed ...
    assert_eq!(fetcher.remaining(), 1);
    let second = cache.retrieve(&mut fetcher, "http://x/a").unwrap();
    // ... and the second call is answered from the cache, byte-identical.
    assert_eq!(second, vec![1, 2, 3]);
    assert_eq!(fetcher.remaining(), 1);
}

#[test]
fn cached_entry_survives_disabled_fetcher() {
    let mut cache = Cache::new(String::from("cachedir"));
    let mut fetcher = ScriptedFetcher::new();
    fetcher.push_response(String::from("http://x/blob"), vec![1, 2, 3]);
    let first = cache.retrieve(&mut fetcher, "http://x/blob").unwrap();
    assert_eq!(first, vec![1, 2, 3]);
    assert_eq!(fetcher.remaining(), 0);
    fetcher.disable();
    let second = cache.retrieve(&mut fetcher, "http://x/blob").unwrap();
    assert_eq!(second, vec![1, 2, 3]);
}

#[test]
fn invalidate_then_retrieve_fetches_fresh() {
    let mut cache = Cache::new(String::from("cachedir"));
    let mut fetcher = ScriptedFetcher::new();
    fetcher.push_response(String::from("u"), vec![1]);
    fetcher.push_response(String::from("u"), vec![2]);
    assert_eq!(cache.retrieve(&mut fetcher, "u").unwrap(), vec![1]);
    cache.invalidate("u");
    assert_eq!(cache.retrieve(&mut fetcher, "u").unwrap(), vec![2]);
    assert_eq!(fetcher.remaining(), 0);
}

#[test]
fn force_retrieve_always_fetches() {
    let mut cache = Cache::new(String::from("cachedir"));
    let mut fetcher = ScriptedFetcher::new();
    fetcher.push_response(String::from("u"), vec![1]);
    fetcher.push_response(String::from("u"), vec![2]);
    assert_eq!(cache.retrieve(&mut fetcher, "u").unwrap(), vec![1]);
    assert_eq!(cache.force_retrieve(&mut fetcher, "u").unwrap(), vec![2]);
}

#[test]
fn invalidate_missing_entry_is_noop() {
    let mut cache = Cache::new(String::from("cachedir"));
    cache.invalidate("never-stored");
    assert!(!cache.contains("never-stored"));
}

#[test]
fn failed_fetch_reports_locator() {
    let mut cache = Cache::new(String::from("cachedir"));
    let mut fetcher = ScriptedFetcher::new();
    let err = cache.retrieve(&mut fetcher, "http://x/missing").unwrap_err();
    let CacheError::Transport { locator } = err;
    assert_eq!(locator, "http://x/missing");
}

#[test]
fn store_keeps_first_entry() {
    let mut cache = Cache::new(String::from("cachedir"));
    assert!(cache.store("u", vec![1]));
    assert!(!cache.store("u", vec![2]));
    let mut fetcher = ScriptedFetcher::new();
    assert_eq!(cache.retrieve(&mut fetcher, "u").unwrap(), vec![1]);
}

#[test]
fn entries_carry_sidecar_locator() {
    let mut cache = Cache::new(String::from("cachedir"));
    cache.store("http://x/a", vec![7]);
    let entries = cache.entries();
    assert_eq!(entries.len(), 1);
    assert_eq!(entries[0].locator, "http://x/a");
    assert_eq!(entries[0].digest, locator_digest("http://x/a"));
    assert_eq!(entries[0].bytes, vec![7]);
}

#[test]
fn extension_takes_last_segment() {
    assert_eq!(extension("archive.tar.gz").unwrap(), "gz");
    assert_eq!(extension("a.b.c?x=1").unwrap(), "c");
    assert_eq!(extension("noext").unwrap(), "noext");
    assert_eq!(extension("q.png?sig=4?z").unwrap(), "png");
}

#[test]
fn url_path_of_parsed_locator() {
    assert_eq!(
        url_path("https://example.com/a/b/c.png?q=1").unwrap(),
        "/a/b/c.png"
    );
    let err = url_path("not a url at all").unwrap_err();
    assert_eq!(err.locator, "not a url at all");
}

#[test]
fn url_path_ext_of_locator() {
    assert_eq!(
        url_path_ext(String::from("https://example.com/img/shot.png?v=2")).unwrap(),
        "png"
    );
    assert!(url_path_ext(String::from("::::")).is_none());
}

#[test]
fn decimal_rendering() {
    assert_eq!(u64_to_string(0), "0");
    assert_eq!(u64_to_string(7), "7");
    assert_eq!(u64_to_string(1234567890), "1234567890");
}

#[test]
fn string_comparison() {
    assert!(str_eq("abc", "abc"));
    assert!(!str_eq("abc", "abd"));
    assert!(str_le("abc", "abd"));
    assert!(str_le("ab", "abc"));
    assert!(!str_le("b", "abc"));
    assert!(str_le("", "a"));
}
