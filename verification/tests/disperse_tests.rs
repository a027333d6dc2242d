use libcrawl::crawl_utils::{disperse_domains, init_seed_list};
use libcrawl::CrawlEntry;

fn sorted_urls(entries: &[CrawlEntry]) -> Vec<String> {
    let mut urls: Vec<String> = entries.iter().map(|e| e.url.clone()).collect();
    urls.sort();
    urls
}

#[test]
fn disperse_keeps_the_multiset() {
    let links = vec![
        CrawlEntry::new("http://a.test/1".to_string(), 2),
        CrawlEntry::new("http://b.test/1".to_string(), 2),
        CrawlEntry::new("http://a.test/2".to_string(), 2),
        CrawlEntry::new("http://c.test/1".to_string(), 2),
        CrawlEntry::new("http://a.test/2".to_string(), 2),
    ];
    let before = sorted_urls(&links);
    let out = disperse_domains(links);
    assert_eq!(out.len(), 5);
    assert_eq!(sorted_urls(&out), before);
    for e in &out {
        assert_eq!(e.crawl_depth, 2);
    }
}

#[test]
fn disperse_drops_hostless_urls() {
    let links = vec![
        CrawlEntry::new("http://a.test/1".to_string(), 1),
        CrawlEntry::new("not a url at all".to_string(), 1),
        CrawlEntry::new("mailto:someone@a.test".to_string(), 1),
    ];
    let out = disperse_domains(links);
    assert_eq!(out.len(), 1);
    assert_eq!(out[0].url, "http://a.test/1");
}

#[test]
fn disperse_interleaves_hosts() {
    let links = vec![
        CrawlEntry::new("http://a.test/1".to_string(), 1),
        CrawlEntry::new("http://a.test/2".to_string(), 1),
        CrawlEntry::new("http://a.test/3".to_string(), 1),
        CrawlEntry::new("http://b.test/1".to_string(), 1),
        CrawlEntry::new("http://b.test/2".to_string(), 1),
        CrawlEntry::new("http://c.test/1".to_string(), 1),
    ];
    let before = sorted_urls(&links);
    let out = disperse_domains(links);
    assert_eq!(out.len(), 6);
    assert_eq!(sorted_urls(&out), before);
    // Two neighbours share a host only once a single host is all that
    // remains: from such a pair onward, every entry has that host.
    let hosts: Vec<String> = out
        .iter()
        .map(|e| libcrawl::robots::Robots::extract_domain(&e.url).unwrap())
        .collect();
    for i in 0..hosts.len() - 1 {
        if hosts[i] == hosts[i + 1] {
            for k in i..hosts.len() {
                assert_eq!(hosts[k], hosts[i]);
            }
        }
    }
    // With three a's against two b's and one c, some same-host tail is
    // unavoidable, so the check above is not vacuous.
    assert_eq!(hosts[hosts.len() - 1], "a.test");
}

#[test]
fn disperse_of_nothing_is_nothing() {
    let out = disperse_domains(Vec::new());
    assert!(out.is_empty());
}

#[test]
fn seed_list_reduces_duplicates() {
    let lines = vec![
        "http://a.test/1".to_string(),
        "http://a.test/1  ".to_string(),
        "".to_string(),
        "   ".to_string(),
        "http://b.test/1".to_string(),
        "definitely not a url".to_string(),
        "http://a.test/1".to_string(),
    ];
    let out = init_seed_list(lines, 3);
    assert_eq!(out.len(), 2);
    assert_eq!(
        sorted_urls(&out),
        vec!["http://a.test/1".to_string(), "http://b.test/1".to_string()]
    );
    for e in &out {
        assert_eq!(e.crawl_depth, 3);
    }
}

#[test]
fn seed_list_trims_lines() {
    let lines = vec!["http://a.test/x \t".to_string()];
    let out = init_seed_list(lines, 0);
    assert_eq!(out.len(), 1);
    assert_eq!(out[0].url, "http://a.test/x");
}
