//! The feed assembler, snapshot store operations and the game library,
//! driven through a scripted fetcher and a plain-text extractor.
use trove::Trove;
use trove::TroveFeed;
use trove::TroveGame;
use trove::cache::Cache;
use trove::cache::ScriptedFetcher;
use trove::trove_feed::CarouselContent;
use trove::trove_feed::Download;
use trove::trove_feed::Extractor;
use trove::trove_feed::Feed;
use trove::trove_feed::FeedError;
use trove::trove_feed::ParseError;
use trove::trove_feed::Product;
use trove::trove_feed::RootDoc;
use trove::trove_feed::TimerOptions;
use trove::trove_feed::Url;
use trove::trove_feed::backup_filename;
use trove::trove_feed::chunk_url;
use trove::trove_feed::trove_url;
use trove::trove::LibraryError;
use trove::trove::MoveAction;
use trove::trove::MoveEvent;

fn product(name: &str, human: &str, date: u32, platform: &str, url: &str, image: &str) -> Product {
    Product {
        all_access: false,
        background_image: None,
        background_color: None,
        carousel_content: CarouselContent {
            youtube_link: None,
            thumbnail: Vec::new(),
            screenshot: Vec::new(),
        },
        date_added: date,
        description_text: String::new(),
        developers: None,
        downloads: vec![(
            platform.to_string(),
            Download {
                machine_name: format!("{}_dl", name),
                name: String::new(),
                url: Url { web: url.to_string(), bittorrent: None },
                file_size: 0,
                md5: String::new(),
                size: None,
            },
        )],
        human_name: human.to_string(),
        humble_original: None,
        image: image.to_string(),
        logo: None,
        machine_name: name.to_string(),
        marketing_blurb: String::new(),
        popularity: 0,
        publishers: None,
        trove_showcase_css: None,
        youtube_link: None,
    }
}

fn prod_line(p: &Product) -> String {
    format!(
        "{},{},{},{},{},{}",
        p.machine_name, p.human_name, p.date_added, p.downloads[0].0, p.downloads[0].1.url.web, p.image
    )
}

fn parse_prod(line: &str) -> Product {
    let parts: Vec<&str> = line.split(',').collect();
    product(
        parts[0],
        parts[1],
        parts[2].parse().unwrap_or(0),
        parts[3],
        parts.get(4).copied().unwrap_or(""),
        parts.get(5).copied().unwrap_or(""),
    )
}

/// An extractor over a plain line-oriented text format.
struct TextExtractor;

fn parse_feed_text(text: &str) -> (usize, Feed) {
    let mut chunks: usize = 0;
    let mut expires = String::new();
    let mut order: Vec<String> = Vec::new();
    let mut newly: Vec<Product> = Vec::new();
    let mut standard: Vec<Product> = Vec::new();
    for line in text.lines() {
        if let Some(v) = line.strip_prefix("chunks=") {
            chunks = v.parse().unwrap_or(0);
        } else if let Some(v) = line.strip_prefix("expires=") {
            expires = v.to_string();
        } else if let Some(v) = line.strip_prefix("order=") {
            order = v.split(';').map(|s| s.to_string()).collect();
        } else if let Some(v) = line.strip_prefix("new=") {
            newly.push(parse_prod(v));
        } else if let Some(v) = line.strip_prefix("std=") {
            standard.push(parse_prod(v));
        }
    }
    (
        chunks,
        Feed {
            all_access: Vec::new(),
            download_platform_order: order,
            newly_added: newly,
            countdown_timer_options: TimerOptions {
                current_time: String::new(),
                next_addition_time: expires,
            },
            standard_products: standard,
        },
    )
}

impl Extractor for TextExtractor {
    fn extract_root(&self, bytes: &Vec<u8>) -> Result<RootDoc, ParseError> {
        let text = String::from_utf8(bytes.clone())
            .map_err(|_| ParseError { detail: String::from("utf8") })?;
        let (chunks, feed) = parse_feed_text(&text);
        Ok(RootDoc { chunks, feed })
    }

    fn parse_chunk(&self, bytes: &Vec<u8>) -> Result<Vec<Product>, ParseError> {
        let text = String::from_utf8(bytes.clone())
            .map_err(|_| ParseError { detail: String::from("utf8") })?;
        Ok(text.lines().filter(|l| !l.is_empty()).map(parse_prod).collect())
    }

    fn parse_feed(&self, text: &str) -> Result<Feed, ParseError> {
        Ok(parse_feed_text(text).1)
    }

    fn render_feed(&self, feed: &Feed, chunks: usize) -> String {
        let mut out = String::new();
        out.push_str(&format!("chunks={}\n", chunks));
        out.push_str(&format!(
            "expires={}\n",
            feed.countdown_timer_options.next_addition_time
        ));
        out.push_str(&format!("order={}\n", feed.download_platform_order.join(";")));
        for p in &feed.newly_added {
            out.push_str(&format!("new={}\n", prod_line(p)));
        }
        for p in &feed.standard_products {
            out.push_str(&format!("std={}\n", prod_line(p)));
        }
        out
    }
}

const FUTURE: &str = "2030-01-01T00:00:00";
const PAST: &str = "2000-01-01T00:00:00";
// Epoch second of 2000-01-01T00:00:00 UTC.
const PAST_EPOCH: i64 = 946684800;

fn root_text(chunks: usize, expires: &str, newly: &[&Product]) -> Vec<u8> {
    let mut out = format!("chunks={}\nexpires={}\norder=windows\n", chunks, expires);
    for p in newly {
        out.push_str(&format!("new={}\n", prod_line(p)));
    }
    out.into_bytes()
}

fn chunk_text(products: &[&Product]) -> Vec<u8> {
    let mut out = String::new();
    for p in products {
        out.push_str(&prod_line(p));
        out.push('\n');
    }
    out.into_bytes()
}

fn names(feed: &TroveFeed) -> Vec<String> {
    let mut v: Vec<String> =
        feed.products().iter().map(|p| p.machine_name.clone()).collect();
    v.sort();
    v
}

#[test]
fn two_chunks_with_repeat_assemble_to_five() {
    let a = product("a", "Alpha", 1, "windows", "https://h/a.exe", "");
    let b = product("b", "beta", 2, "windows", "https://h/b.exe", "");
    let c = product("c", "Gamma", 3, "windows", "https://h/c.exe", "");
    let d = product("d", "delta", 4, "windows", "https://h/d.exe", "");
    let e = product("e", "Epsilon", 5, "windows", "https://h/e.exe", "");
    let mut fetcher = ScriptedFetcher::new();
    fetcher.push_response(trove_url().to_string(), root_text(2, FUTURE, &[]));
    fetcher.push_response(chunk_url(0), chunk_text(&[&a, &b, &c]));
    // The second chunk repeats a machine name of the first.
    fetcher.push_response(chunk_url(1), chunk_text(&[&c, &d, &e]));
    let feed =
        TroveFeed::new(Cache::new(String::from("cd")), &mut fetcher, &TextExtractor, 0).unwrap();
    assert_eq!(feed.products().len(), 5);
    assert_eq!(names(&feed), vec!["a", "b", "c", "d", "e"]);
    // Sorted case-insensitively by display name.
    let humans: Vec<String> =
        feed.products().iter().map(|p| p.human_name.clone()).collect();
    assert_eq!(humans, vec!["Alpha", "beta", "delta", "Epsilon", "Gamma"]);
}

#[test]
fn newly_added_merges_without_duplicates() {
    let a = product("a", "Alpha", 1, "windows", "https://h/a.exe", "");
    let b = product("b", "Beta", 2, "windows", "https://h/b.exe", "");
    let a2 = product("a", "Alpha again", 9, "windows", "https://h/a2.exe", "");
    let f = product("f", "Zeta", 6, "windows", "https://h/f.exe", "");
    let mut fetcher = ScriptedFetcher::new();
    fetcher.push_response(trove_url().to_string(), root_text(1, FUTURE, &[&a2, &f]));
    fetcher.push_response(chunk_url(0), chunk_text(&[&a, &b]));
    let feed =
        TroveFeed::new(Cache::new(String::from("cd")), &mut fetcher, &TextExtractor, 0).unwrap();
    assert_eq!(names(&feed), vec!["a", "b", "f"]);
    // First seen wins: "a" keeps the chunk's display name.
    let alpha = feed.products().iter().find(|p| p.machine_name == "a").unwrap();
    assert_eq!(alpha.human_name, "Alpha");
}

#[test]
fn stale_feed_retries_exactly_once() {
    let a = product("a", "Alpha", 1, "windows", "https://h/a.exe", "");
    let mut fetcher = ScriptedFetcher::new();
    // Both attempts see an expired snapshot: first the cached set, then,
    // after invalidation, the refetched set.
    fetcher.push_response(trove_url().to_string(), root_text(1, PAST, &[]));
    fetcher.push_response(chunk_url(0), chunk_text(&[&a]));
    fetcher.push_response(trove_url().to_string(), root_text(1, PAST, &[]));
    fetcher.push_response(chunk_url(0), chunk_text(&[&a]));
    let now: i64 = 1_000_000_000;
    let err = TroveFeed::new(Cache::new(String::from("cd")), &mut fetcher, &TextExtractor, now)
        .unwrap_err();
    match err {
        FeedError::StaleFeedRace { expiration, now: n } => {
            assert_eq!(expiration, PAST_EPOCH);
            assert_eq!(n, now);
        }
        _ => panic!("expected a stale-feed race"),
    }
    // Exactly two assembly passes: every scripted response was consumed,
    // and none was asked for beyond them.
    assert_eq!(fetcher.remaining(), 0);
}

#[test]
fn stale_feed_recovers_on_fresh_refetch() {
    let a = product("a", "Alpha", 1, "windows", "https://h/a.exe", "");
    let mut fetcher = ScriptedFetcher::new();
    fetcher.push_response(trove_url().to_string(), root_text(1, PAST, &[]));
    fetcher.push_response(chunk_url(0), chunk_text(&[&a]));
    fetcher.push_response(trove_url().to_string(), root_text(1, FUTURE, &[]));
    fetcher.push_response(chunk_url(0), chunk_text(&[&a]));
    let feed = TroveFeed::new(
        Cache::new(String::from("cd")),
        &mut fetcher,
        &TextExtractor,
        1_000_000_000,
    )
    .unwrap();
    assert_eq!(names(&feed), vec!["a"]);
    assert_eq!(fetcher.remaining(), 0);
}

#[test]
fn save_then_load_round_trips_names() {
    let a = product("a", "Alpha", 1, "windows", "https://h/a.exe", "");
    let b = product("b", "Beta", 2, "windows", "https://h/b.exe", "");
    let c = product("c", "Gamma", 3, "windows", "https://h/c.exe", "");
    let mut fetcher = ScriptedFetcher::new();
    fetcher.push_response(trove_url().to_string(), root_text(2, FUTURE, &[&c]));
    fetcher.push_response(chunk_url(0), chunk_text(&[&a, &b]));
    fetcher.push_response(chunk_url(1), chunk_text(&[&b]));
    let feed =
        TroveFeed::new(Cache::new(String::from("cd")), &mut fetcher, &TextExtractor, 0).unwrap();
    // What save writes is the exact captured text.
    let text = feed.json().clone();
    let loaded =
        TroveFeed::load(Cache::new(String::from("cd2")), text, &TextExtractor).unwrap();
    assert_eq!(names(&feed), names(&loaded));
    assert_eq!(names(&loaded), vec!["a", "b", "c"]);
}

fn load_feed(std_lines: &[&Product]) -> TroveFeed {
    let mut text = format!("expires={}\norder=windows\n", FUTURE);
    for p in std_lines {
        text.push_str(&format!("std={}\n", prod_line(p)));
    }
    TroveFeed::load(Cache::new(String::from("cd")), text, &TextExtractor).unwrap()
}

#[test]
fn diff_is_antisymmetric() {
    let a = product("a", "Alpha", 1, "windows", "https://h/a.exe", "");
    let b = product("b", "Beta", 2, "windows", "https://h/b.exe", "");
    let c = product("c", "Gamma", 3, "windows", "https://h/c.exe", "");
    let d = product("d", "Delta", 4, "windows", "https://h/d.exe", "");
    let current = load_feed(&[&a, &b, &c]);
    let older = load_feed(&[&b, &c, &d]);
    let (added, removed) = current.diff(&older);
    assert_eq!(added, vec!["a"]);
    assert_eq!(removed, vec!["d"]);
    let (added_back, removed_back) = older.diff(&current);
    assert_eq!(added, removed_back);
    assert_eq!(removed, added_back);
}

#[test]
fn expiration_is_a_pure_predicate() {
    let a = product("a", "Alpha", 1, "windows", "https://h/a.exe", "");
    let mut text = String::from("expires=2020-01-02T03:04:05\norder=windows\n");
    text.push_str(&format!("std={}\n", prod_line(&a)));
    let feed = TroveFeed::load(Cache::new(String::from("cd")), text, &TextExtractor).unwrap();
    // Epoch second of 2020-01-02T03:04:05 UTC.
    let epoch: i64 = 1577934245;
    assert!(!feed.expired_at(epoch));
    assert!(!feed.expired_at(epoch - 1));
    assert!(feed.expired_at(epoch + 1));
}

#[test]
fn malformed_expiration_is_a_parse_error() {
    let err = TroveFeed::load(
        Cache::new(String::from("cd")),
        String::from("expires=garbage\norder=windows\n"),
        &TextExtractor,
    )
    .unwrap_err();
    match err {
        FeedError::Parse { detail } => assert_eq!(detail, "garbage"),
        _ => panic!("expected a parse error"),
    }
}

#[test]
fn failed_root_fetch_is_a_transport_error() {
    let mut fetcher = ScriptedFetcher::new();
    let err = TroveFeed::new(Cache::new(String::from("cd")), &mut fetcher, &TextExtractor, 0)
        .unwrap_err();
    match err {
        FeedError::Transport { locator } => assert_eq!(locator, trove_url()),
        _ => panic!("expected a transport error"),
    }
}

#[test]
fn sort_newest_to_oldest_orders_by_date() {
    let a = product("a", "Alpha", 1, "windows", "https://h/a.exe", "");
    let b = product("b", "Beta", 5, "windows", "https://h/b.exe", "");
    let c = product("c", "Gamma", 3, "windows", "https://h/c.exe", "");
    let mut feed = load_feed(&[&a, &b, &c]);
    feed.sort_newest_to_oldest();
    let dates: Vec<u32> = feed.products().iter().map(|p| p.date_added).collect();
    assert_eq!(dates, vec![5, 3, 1]);
    feed.sort_alphabetically();
    let humans: Vec<String> = feed.products().iter().map(|p| p.human_name.clone()).collect();
    assert_eq!(humans, vec!["Alpha", "Beta", "Gamma"]);
}

#[test]
fn cache_images_fetches_each_image_once() {
    let a = product("a", "Alpha", 1, "windows", "https://h/a.exe", "https://h/a.png");
    let b = product("b", "Beta", 2, "windows", "https://h/b.exe", "https://h/b.png");
    let mut fetcher = ScriptedFetcher::new();
    fetcher.push_response(trove_url().to_string(), root_text(1, FUTURE, &[]));
    fetcher.push_response(chunk_url(0), chunk_text(&[&a, &b]));
    fetcher.push_response(String::from("https://h/a.png"), vec![1]);
    fetcher.push_response(String::from("https://h/b.png"), vec![2]);
    let mut feed =
        TroveFeed::new(Cache::new(String::from("cd")), &mut fetcher, &TextExtractor, 0).unwrap();
    feed.cache_images(&mut fetcher);
    assert_eq!(fetcher.remaining(), 0);
    // A second pass is answered from the cache; a disabled fetcher does not
    // matter.
    fetcher.disable();
    feed.cache_images(&mut fetcher);
}

#[test]
fn backup_names_are_date_stamped() {
    assert_eq!(backup_filename(2024, 3, 7), "catalog-2024-03-07.json");
    assert_eq!(backup_filename(2024, 11, 25), "catalog-2024-11-25.json");
}

#[test]
fn chunk_locators_are_indexed() {
    assert_eq!(
        chunk_url(3),
        "https://www.humblebundle.com/api/v1/trove/chunk?property=start&direction=desc&index=3"
    );
    assert_eq!(trove_url(), "https://www.humblebundle.com/subscription/trove");
}

// ---------------------------------------------------------------------------
// The game library
// ---------------------------------------------------------------------------

#[test]
fn library_requires_both_directories() {
    let err = Trove::new(String::from("r"), String::from("d"), false, true).unwrap_err();
    match err {
        LibraryError::Filesystem { path } => assert_eq!(path, "r"),
        _ => panic!("expected a filesystem error"),
    }
    let err = Trove::new(String::from("r"), String::from("d"), true, false).unwrap_err();
    match err {
        LibraryError::Filesystem { path } => assert_eq!(path, "d"),
        _ => panic!("expected a filesystem error"),
    }
    assert!(Trove::new(String::from("r"), String::from("d"), true, true).is_ok());
}

#[test]
fn record_construction_selects_first_platform() {
    let p = product("g1", "Game One", 5, "windows", "https://h/dir/game1.exe", "");
    let order = vec![String::from("windows"), String::from("mac")];
    let g = TroveGame::from_product(&p, &order).unwrap();
    assert_eq!(g.machine_name, "g1");
    assert_eq!(g.human_name, "Game One");
    assert_eq!(g.date_added, 5);
    assert!(!g.downloaded);
    assert!(!g.installed);
    assert_eq!(g.download_urls, vec![(String::from("windows"), String::from("https://h/dir/game1.exe"))]);
    assert_eq!(g.downloads, vec![(String::from("windows"), String::from("game1.exe"))]);
    assert!(!g.removed_from_trove);
}

#[test]
fn record_construction_without_platform_fails() {
    let p = product("g1", "Game One", 5, "linux", "https://h/g1.bin", "");
    let order = vec![String::from("windows")];
    let err = TroveGame::from_product(&p, &order).unwrap_err();
    match err {
        LibraryError::MissingPlatform { machine_name } => assert_eq!(machine_name, "g1"),
        _ => panic!("expected a missing-platform error"),
    }
}

fn library_with(products: &[&Product]) -> Trove {
    let feed = load_feed(products);
    let mut trove =
        Trove::new(String::from("root"), String::from("dl"), true, true).unwrap();
    trove.add_games(feed).unwrap();
    trove
}

#[test]
fn merge_is_idempotent() {
    let a = product("a", "Alpha", 1, "windows", "https://h/a.exe", "");
    let b = product("b", "Beta", 2, "windows", "https://h/b.exe", "");
    let mut trove = library_with(&[&a, &b]);
    assert_eq!(trove.games().len(), 2);
    let again = load_feed(&[&a, &b]);
    trove.add_games(again).unwrap();
    assert_eq!(trove.games().len(), 2);
    let names: Vec<String> = trove.games().iter().map(|g| g.machine_name.clone()).collect();
    assert_eq!(names, vec!["a", "b"]);
    // A third snapshot overlapping partially adds only the new name.
    let c = product("c", "Gamma", 3, "windows", "https://h/c.exe", "");
    let overlapping = load_feed(&[&b, &c]);
    trove.add_games(overlapping).unwrap();
    assert_eq!(trove.games().len(), 3);
}

#[test]
fn merge_reports_missing_platform_and_changes_nothing() {
    let a = product("a", "Alpha", 1, "windows", "https://h/a.exe", "");
    let bad = product("m", "Mac Only", 2, "mac", "https://h/m.dmg", "");
    let mut trove = library_with(&[&a]);
    let feed = load_feed(&[&bad]);
    let err = trove.add_games(feed).unwrap_err();
    match err {
        LibraryError::MissingPlatform { machine_name } => assert_eq!(machine_name, "m"),
        _ => panic!("expected a missing-platform error"),
    }
    assert_eq!(trove.games().len(), 1);
}

#[test]
fn download_status_follows_the_filesystem() {
    let a = product("a", "Alpha", 1, "windows", "https://h/a.exe", "");
    let b = product("b", "Beta", 2, "windows", "https://h/b.exe", "");
    let c = product("c", "Gamma", 3, "windows", "https://h/c.exe", "");
    let mut trove = library_with(&[&a, &b, &c]);
    trove.update_download_status(&vec![true, false, true]);
    assert_eq!(trove.counts(), (3, 2));
    assert_eq!(trove.downloaded().len(), 2);
    assert_eq!(trove.not_downloaded().len(), 1);
    assert_eq!(trove.not_downloaded()[0].machine_name, "b");
    // Idempotent: reapplying the same facts changes nothing.
    trove.update_download_status(&vec![true, false, true]);
    assert_eq!(trove.counts(), (3, 2));
}

#[test]
fn stray_downloads_match_expected_files() {
    let a = product("a", "Alpha", 1, "windows", "https://h/a.exe", "");
    let b = product("b", "Beta", 2, "windows", "https://h/b.exe", "");
    let trove = library_with(&[&a, &b]);
    let files = vec![String::from("b.exe"), String::from("unrelated.zip")];
    assert_eq!(trove.stray_downloads(&files), vec![String::from("b.exe")]);
}

#[test]
fn move_session_relocates_a_stray() {
    let a = product("a", "Alpha", 1, "windows", "https://h/a.exe", "");
    let trove = library_with(&[&a]);
    let files = vec![String::from("a.exe")];
    let mut session = trove.move_session(&files);
    let action = session.step(MoveEvent::Started);
    match action {
        MoveAction::CheckDest { name } => assert_eq!(name, "a.exe"),
        _ => panic!("expected a destination check"),
    }
    let action = session.step(MoveEvent::DestExists { exists: false });
    match action {
        MoveAction::CopyToRoot { name } => assert_eq!(name, "a.exe"),
        _ => panic!("expected a copy"),
    }
    let action = session.step(MoveEvent::Copied { ok: true });
    match action {
        MoveAction::RemoveSource { name } => assert_eq!(name, "a.exe"),
        _ => panic!("expected the source removal, after the copy succeeded"),
    }
    let action = session.step(MoveEvent::Removed { ok: true });
    assert!(matches!(action, MoveAction::Finished));
    assert!(session.is_done());
    assert!(session.unmoved().is_empty());
}

#[test]
fn existing_destination_is_reported_not_overwritten() {
    let a = product("game1", "Game One", 1, "windows", "https://h/game1.exe", "");
    let trove = library_with(&[&a]);
    let files = vec![String::from("game1.exe")];
    let mut session = trove.move_session(&files);
    let action = session.step(MoveEvent::Started);
    assert!(matches!(action, MoveAction::CheckDest { .. }));
    // The root already holds game1.exe: no copy, no removal, reported.
    let action = session.step(MoveEvent::DestExists { exists: true });
    assert!(matches!(action, MoveAction::Finished));
    assert_eq!(session.unmoved(), &vec![String::from("game1.exe")]);
}

#[test]
fn failed_copy_never_deletes_the_source() {
    let a = product("a", "Alpha", 1, "windows", "https://h/a.exe", "");
    let b = product("b", "Beta", 2, "windows", "https://h/b.exe", "");
    let trove = library_with(&[&a, &b]);
    let files = vec![String::from("a.exe"), String::from("b.exe")];
    let mut session = trove.move_session(&files);
    assert!(matches!(session.step(MoveEvent::Started), MoveAction::CheckDest { .. }));
    assert!(matches!(
        session.step(MoveEvent::DestExists { exists: false }),
        MoveAction::CopyToRoot { .. }
    ));
    // The copy failed: the next action moves on to the second stray and is
    // never a source removal.
    let action = session.step(MoveEvent::Copied { ok: false });
    match action {
        MoveAction::CheckDest { name } => assert_eq!(name, "b.exe"),
        _ => panic!("expected to move on to the next stray"),
    }
    assert!(matches!(
        session.step(MoveEvent::DestExists { exists: false }),
        MoveAction::CopyToRoot { .. }
    ));
    assert!(matches!(
        session.step(MoveEvent::Copied { ok: true }),
        MoveAction::RemoveSource { .. }
    ));
    assert!(matches!(session.step(MoveEvent::Removed { ok: true }), MoveAction::Finished));
    assert_eq!(session.unmoved(), &vec![String::from("a.exe")]);
}

#[test]
fn formats_one_record_line() {
    let p = product("a", "Abc", 123, "windows", "https://h/a.exe", "");
    let trove = library_with(&[&p]);
    let line = trove.format(&trove.games()[0]);
    assert_eq!(line, "123 Abc false");
}

#[test]
fn metadata_caching_is_a_noop() {
    let trove = Trove::new(String::from("r"), String::from("d"), true, true).unwrap();
    assert!(trove.cache_all_metadata().is_ok());
}

#[test]
fn from_builds_and_merges() {
    let a = product("a", "Alpha", 1, "windows", "https://h/a.exe", "");
    let feed = load_feed(&[&a]);
    let trove =
        Trove::from(String::from("r"), String::from("d"), true, true, feed).unwrap();
    assert_eq!(trove.games().len(), 1);
    assert_eq!(trove.root(), "r");
    assert_eq!(trove.downloads(), "d");
}

#[test]
fn remerge_refreshes_descriptive_fields() {
    let a = product("a", "Alpha", 1, "windows", "https://h/a.exe", "");
    let mut trove = library_with(&[&a]);
    assert_eq!(trove.games()[0].human_name, "Alpha");
    let renamed = product("a", "Alpha Deluxe", 9, "windows", "https://h/new-a.exe", "img");
    trove.add_games(load_feed(&[&renamed])).unwrap();
    assert_eq!(trove.games().len(), 1);
    let g = &trove.games()[0];
    assert_eq!(g.human_name, "Alpha Deluxe");
    assert_eq!(g.date_added, 9);
    assert_eq!(g.image, "img");
    // The chosen download and expected file name are not refreshed.
    assert_eq!(g.downloads, vec![(String::from("windows"), String::from("a.exe"))]);
    assert!(!g.removed_from_trove);
}

#[test]
fn omitted_record_is_marked_removed_but_persists() {
    let a = product("a", "Alpha", 1, "windows", "https://h/a.exe", "");
    let b = product("b", "Beta", 2, "windows", "https://h/b.exe", "");
    let mut trove = library_with(&[&a, &b]);
    trove.add_games(load_feed(&[&b])).unwrap();
    assert_eq!(trove.games().len(), 2);
    let ga = trove.games().iter().find(|g| g.machine_name == "a").unwrap();
    assert!(ga.removed_from_trove);
    let gb = trove.games().iter().find(|g| g.machine_name == "b").unwrap();
    assert!(!gb.removed_from_trove);
    // A later snapshot bearing the name again clears the mark.
    trove.add_games(load_feed(&[&a, &b])).unwrap();
    let ga = trove.games().iter().find(|g| g.machine_name == "a").unwrap();
    assert!(!ga.removed_from_trove);
}

#[test]
fn equal_display_names_sort_by_machine_name() {
    let x = product("zz", "Same Title", 1, "windows", "https://h/zz.exe", "");
    let y = product("aa", "same title", 2, "windows", "https://h/aa.exe", "");
    let mut feed = load_feed(&[&x, &y]);
    feed.sort_alphabetically();
    let names_in_order: Vec<String> =
        feed.products().iter().map(|p| p.machine_name.clone()).collect();
    // The lowercased display names tie, so the machine name decides.
    assert_eq!(names_in_order, vec!["aa", "zz"]);
    feed.sort_newest_to_oldest();
    let dates: Vec<u32> = feed.products().iter().map(|p| p.date_added).collect();
    assert_eq!(dates, vec![2, 1]);
}

fn record(name: &str, installer: &str, downloaded: bool) -> TroveGame {
    TroveGame {
        machine_name: name.to_string(),
        human_name: name.to_string(),
        description: String::new(),
        date_added: 0,
        downloaded,
        installed: false,
        executable: String::new(),
        download_urls: vec![(String::from("windows"), format!("https://h/{}", installer))],
        downloads: vec![(String::from("windows"), installer.to_string())],
        logo: None,
        image: String::new(),
        screenshots: Vec::new(),
        thumbnails: Vec::new(),
        trailer: None,
        last_seen_on: String::new(),
        removed_from_trove: false,
    }
}

#[test]
fn restoring_records_keeps_history_and_recomputes_counts() {
    let mut dup = record("a", "a2.exe", false);
    dup.human_name = String::from("duplicate of a");
    let mut malformed = record("m", "m.exe", true);
    malformed.downloads.push((String::from("mac"), String::from("m.dmg")));
    let records = vec![
        record("a", "a.exe", true),
        record("b", "b.exe", false),
        dup,
        malformed,
        record("c", "c.exe", true),
    ];
    let trove = Trove::from_records(
        String::from("r"),
        String::from("d"),
        true,
        true,
        records,
    )
    .unwrap();
    // The first record per machine name survives; the record without
    // exactly one chosen download is dropped; counters are recomputed.
    let names: Vec<String> =
        trove.games().iter().map(|g| g.machine_name.clone()).collect();
    assert_eq!(names, vec!["a", "b", "c"]);
    assert_eq!(trove.games()[0].human_name, "a");
    assert_eq!(trove.counts(), (3, 2));
}

#[test]
fn restoring_records_requires_both_directories() {
    let err = Trove::from_records(
        String::from("r"),
        String::from("d"),
        false,
        true,
        vec![record("a", "a.exe", false)],
    )
    .unwrap_err();
    match err {
        LibraryError::Filesystem { path } => assert_eq!(path, "r"),
        _ => panic!("expected a filesystem error"),
    }
}
