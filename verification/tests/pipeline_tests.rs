use libcrawl::crawl::{accept_outlinks, cache_links, fetch_success, process_crawled, should_stop, KnownUrls};
use libcrawl::crawl_utils::init_seed_list;
use libcrawl::lang::{build_langdetector, lang_builder};
use libcrawl::response::{Response, WetRecord};
use libcrawl::CrawlCounters;
use libcrawl::CrawlEntry;

fn page_response(url: &str, html: &str) -> Response {
    Response::new(
        "203.0.113.9".to_string(),
        "HTTP/1.1".to_string(),
        "200 OK".to_string(),
        url,
        html,
        html.len() as u64,
        &Vec::new(),
        "2020-01-01T00:00:00+00:00",
    )
}

/// Runs the crawl loop over an in-memory site: the fetch channel is a
/// vector, the writer a vector of records, and a URL with no page
/// counts as a transport failure.
fn drive(
    seed_lines: Vec<&str>,
    depth: u8,
    accept_codes: Vec<&str>,
    pages: &[(&str, &str)],
) -> (Vec<WetRecord>, CrawlCounters, usize) {
    let lines: Vec<String> = seed_lines.into_iter().map(|s| s.to_string()).collect();
    let seeds = init_seed_list(lines, depth);
    let mut counters = CrawlCounters::new(0, 0, 0, 0, 0);
    counters.add_to("initial", seeds.len() as u64);
    let mut known = KnownUrls::from_entries(&seeds);
    let detector = build_langdetector(vec!["arabic", "english"]);
    let accept_langs = lang_builder(accept_codes);
    let accept_all = accept_langs.is_empty();
    let mut queue = seeds;
    counters.add_to("queued", queue.len() as u64);
    let mut link_cache = Vec::new();
    let mut records = Vec::new();
    while let Some(entry) = queue.pop() {
        counters.decrement_queued();
        let body = pages.iter().find(|(u, _)| *u == entry.url);
        match body {
            None => counters.increment_failed(),
            Some((_, html)) => {
                let response = page_response(&entry.url, html);
                let scrap = fetch_success(&mut counters, response, entry.crawl_depth);
                let (record, outlinks) = process_crawled(&scrap, &detector, &accept_langs, accept_all);
                records.push(record);
                if let Some(candidates) = outlinks {
                    let kept = accept_outlinks(&mut known, candidates);
                    if let Some(batch) = cache_links(&mut link_cache, kept, queue.is_empty(), &mut counters) {
                        for e in batch {
                            queue.push(e);
                        }
                    }
                }
            }
        }
    }
    assert!(should_stop(true, queue.is_empty()));
    (records, counters, known.urls.len())
}

fn target_uri(rec: &WetRecord) -> String {
    String::from_utf8(rec.headers[1].1.clone()).unwrap()
}

#[test]
fn trivial_seed() {
    let pages = [("http://example.test/a", "<html><body>plain page</body></html>")];
    let (records, counters, known) = drive(vec!["http://example.test/a"], 0, vec![], &pages);
    assert_eq!(records.len(), 1);
    assert_eq!(target_uri(&records[0]), "http://example.test/a");
    assert_eq!(counters.visited, 1);
    assert_eq!(counters.failed, 0);
    assert_eq!(counters.extra, 0);
    assert_eq!(counters.queued, 0);
    assert_eq!(known, 1);
}

#[test]
fn one_level_expansion() {
    let pages = [
        (
            "http://example.test/a",
            "<html><body><a href=\"http://example.test/b\">b</a>\
             <a href=\"http://example.test/c\">c</a></body></html>",
        ),
        (
            "http://example.test/b",
            "<html><body><a href=\"http://example.test/d\">d</a>deeper</body></html>",
        ),
        ("http://example.test/c", "<html><body>leaf</body></html>"),
        ("http://example.test/d", "<html><body>never reached</body></html>"),
    ];
    let (records, counters, known) = drive(vec!["http://example.test/a"], 1, vec![], &pages);
    assert_eq!(records.len(), 3);
    let mut uris: Vec<String> = records.iter().map(target_uri).collect();
    uris.sort();
    assert_eq!(
        uris,
        vec![
            "http://example.test/a".to_string(),
            "http://example.test/b".to_string(),
            "http://example.test/c".to_string(),
        ]
    );
    assert_eq!(counters.extra, 2);
    assert_eq!(known, 3);
    assert_eq!(counters.visited, 3);
    assert_eq!(counters.failed, 0);
}

#[test]
fn deduplication_over_a_cycle() {
    let pages = [
        (
            "http://example.test/a",
            "<html><body><a href=\"http://example.test/b\">b</a></body></html>",
        ),
        (
            "http://example.test/b",
            "<html><body><a href=\"http://example.test/a\">back</a></body></html>",
        ),
    ];
    let (records, counters, known) = drive(vec!["http://example.test/a"], 5, vec![], &pages);
    assert_eq!(records.len(), 2);
    assert_eq!(counters.visited, 2);
    assert_eq!(counters.extra, 1);
    assert_eq!(known, 2);
}

#[test]
fn language_filter_blocks_expansion() {
    let pages = [
        (
            "http://example.test/a",
            "<html><body>The quick brown fox jumps over the lazy dog and keeps on \
             running through the quiet green fields until the evening comes. \
             <a href=\"http://example.test/b\">b</a></body></html>",
        ),
        ("http://example.test/b", "<html><body>never fetched</body></html>"),
    ];
    let (records, counters, _) = drive(vec!["http://example.test/a"], 1, vec!["arabic"], &pages);
    assert_eq!(records.len(), 1);
    assert_eq!(target_uri(&records[0]), "http://example.test/a");
    assert_eq!(counters.visited, 1);
    assert_eq!(counters.extra, 0);
}

#[test]
fn zero_anchors_give_zero_outlinks() {
    let detector = build_langdetector(vec!["arabic", "english"]);
    let response = page_response("http://example.test/a", "<html><body>no links here</body></html>");
    let mut counters = CrawlCounters::new(0, 0, 0, 0, 0);
    let scrap = fetch_success(&mut counters, response, 3);
    let (record, outlinks) = process_crawled(&scrap, &detector, &[], true);
    assert_eq!(record.body, "no links here");
    let candidates = outlinks.expect("depth is left, so outlink work happens");
    assert!(candidates.is_empty());
}

#[test]
fn depth_zero_means_no_outlink_work() {
    let detector = build_langdetector(vec!["arabic", "english"]);
    let response = page_response(
        "http://example.test/a",
        "<html><body><a href=\"http://example.test/b\">b</a></body></html>",
    );
    let mut counters = CrawlCounters::new(0, 0, 0, 0, 0);
    let scrap = fetch_success(&mut counters, response, 0);
    let (_, outlinks) = process_crawled(&scrap, &detector, &[], true);
    assert!(outlinks.is_none());
}

#[test]
fn outlink_gate_inserts_once() {
    let mut known = KnownUrls::new();
    assert!(known.insert("http://example.test/a".to_string()));
    assert!(!known.insert("http://example.test/a".to_string()));
    assert_eq!(known.urls.len(), 1);
}

#[test]
fn outlink_gate_filters_schemes_and_duplicates() {
    let mut known = KnownUrls::new();
    assert!(known.insert("http://example.test/known".to_string()));
    let candidates = vec![
        CrawlEntry::new("http://example.test/x".to_string(), 1),
        CrawlEntry::new("ftp://example.test/file".to_string(), 1),
        CrawlEntry::new("relative/path".to_string(), 1),
        CrawlEntry::new("http://example.test/known".to_string(), 1),
        CrawlEntry::new("http://example.test/x".to_string(), 1),
        CrawlEntry::new("https://example.test/y".to_string(), 1),
    ];
    let kept = accept_outlinks(&mut known, candidates);
    let urls: Vec<&str> = kept.iter().map(|e| e.url.as_str()).collect();
    assert_eq!(urls, vec!["http://example.test/x", "https://example.test/y"]);
}

#[test]
fn failed_fetches_are_counted() {
    let pages = [("http://example.test/a", "<html><body>ok</body></html>")];
    let (records, counters, _) = drive(
        vec!["http://example.test/a", "http://example.test/gone"],
        0,
        vec![],
        &pages,
    );
    assert_eq!(records.len(), 1);
    assert_eq!(counters.visited, 1);
    assert_eq!(counters.failed, 1);
}
