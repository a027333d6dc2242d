use libcrawl::crawl::{
    eval_robots_cached, robots_after_fetch, verdict_action, FetchAction, RobotsPrecheck,
};
use libcrawl::robots::{Robots, RobotsVerdict, Rules};

const POLICY: &str = "User-agent: *\nDisallow: /private/\nCrawl-delay: 2\n";

#[test]
fn verdict_truth_table() {
    assert_eq!(RobotsVerdict::new(false, false), RobotsVerdict::ForbiddenPath);
    assert_eq!(RobotsVerdict::new(false, true), RobotsVerdict::ForbiddenPath);
    assert_eq!(RobotsVerdict::new(true, false), RobotsVerdict::CrawlDelay);
    assert_eq!(RobotsVerdict::new(true, true), RobotsVerdict::Proceed);
}

#[test]
fn url_helpers() {
    let parsed = Robots::valid_url("http://example.test/a/b?q=1").expect("parses");
    assert_eq!(parsed.scheme, "http");
    assert_eq!(parsed.host.as_deref(), Some("example.test"));
    let origin = Robots::to_domain(&parsed).expect("has host");
    assert_eq!(origin, "http://example.test");
    assert_eq!(
        Robots::extract_domain("https://example.test/x"),
        Some("example.test".to_string())
    );
    assert_eq!(Robots::extract_domain("not a url"), None);
    assert!(Robots::valid_url("still not a url").is_none());
    let robots_url = Robots::robots_url("http://example.test").expect("derives");
    assert_eq!(robots_url, "http://example.test/robots.txt");
}

#[test]
fn forbidden_path_is_forbidden() {
    let mut robots = Robots::new();
    assert!(!robots.has_domain("http://example.test"));
    assert!(robots.insert_entry("http://example.test", POLICY));
    assert!(robots.has_domain("http://example.test"));
    let verdict = robots.can_visit_url(
        "http://example.test/private/x",
        "http://example.test",
        100,
    );
    assert_eq!(verdict, RobotsVerdict::ForbiddenPath);
}

#[test]
fn crawl_delay_holds_then_passes() {
    let mut robots = Robots::new();
    assert!(robots.insert_entry("http://example.test", POLICY));
    // Never visited: the first fetch may proceed at once.
    let verdict = robots.can_visit_url("http://example.test/ok", "http://example.test", 100);
    assert_eq!(verdict, RobotsVerdict::Proceed);
    robots.update_domain("http://example.test", 100);
    let verdict = robots.can_visit_url("http://example.test/ok", "http://example.test", 101);
    assert_eq!(verdict, RobotsVerdict::CrawlDelay);
    let verdict = robots.can_visit_url("http://example.test/ok", "http://example.test", 102);
    assert_eq!(verdict, RobotsVerdict::Proceed);
}

#[test]
fn insert_is_first_wins() {
    let mut robots = Robots::new();
    assert!(robots.insert_entry("http://example.test", POLICY));
    // A second insert keeps the first rules.
    assert!(robots.insert_entry("http://example.test", "User-agent: *\nAllow: /\n"));
    let verdict = robots.can_visit_url(
        "http://example.test/private/x",
        "http://example.test",
        100,
    );
    assert_eq!(verdict, RobotsVerdict::ForbiddenPath);
}

#[test]
fn rules_parse_reads_the_delay() {
    let rules = Rules::new("*", POLICY.as_bytes()).expect("parses");
    assert_eq!(rules.delay_secs, Some(2));
    assert_eq!(rules.last_visited, None);
    let relaxed = Rules::new("*", b"User-agent: *\nAllow: /\n").expect("parses");
    assert_eq!(relaxed.delay_secs, None);
}

#[test]
fn precheck_reports_the_cache_state() {
    let mut robots = Robots::new();
    match eval_robots_cached(&robots, "::: not a url :::", 0) {
        RobotsPrecheck::Malformed => {}
        _ => panic!("malformed URL must be reported"),
    }
    match eval_robots_cached(&robots, "http://example.test/a", 0) {
        RobotsPrecheck::Unknown { origin, robots_url } => {
            assert_eq!(origin, "http://example.test");
            assert_eq!(robots_url.as_deref(), Some("http://example.test/robots.txt"));
        }
        _ => panic!("unknown origin must ask for robots.txt"),
    }
    assert!(robots.insert_entry("http://example.test", POLICY));
    match eval_robots_cached(&robots, "http://example.test/private/x", 0) {
        RobotsPrecheck::Known { origin, verdict } => {
            assert_eq!(origin, "http://example.test");
            assert_eq!(verdict, RobotsVerdict::ForbiddenPath);
        }
        _ => panic!("cached origin must give a verdict"),
    }
}

#[test]
fn robots_fetch_error_is_permissive() {
    let mut robots = Robots::new();
    let verdict = robots_after_fetch(&mut robots, "http://example.test", None, "http://example.test/a", 0);
    assert_eq!(verdict, None);
    assert!(!robots.has_domain("http://example.test"));
    let action = verdict_action(&mut robots, verdict, "http://example.test", 0);
    assert_eq!(action, FetchAction::Fetch);
}

#[test]
fn robots_404_body_is_permissive() {
    // A host answering the robots.txt request with an HTML error page:
    // the forgiving parser yields no rules, so the URL proceeds and no
    // delay is enforced.
    let mut robots = Robots::new();
    let body = "<html><head><title>404</title></head><body>not found</body></html>";
    let verdict = robots_after_fetch(
        &mut robots,
        "http://example.test",
        Some(body),
        "http://example.test/a",
        50,
    );
    assert_eq!(verdict, Some(RobotsVerdict::Proceed));
}

#[test]
fn verdict_actions() {
    let mut robots = Robots::new();
    assert!(robots.insert_entry("http://example.test", POLICY));
    assert_eq!(
        verdict_action(&mut robots, Some(RobotsVerdict::ForbiddenPath), "http://example.test", 7),
        FetchAction::Discard
    );
    assert_eq!(
        verdict_action(&mut robots, Some(RobotsVerdict::CrawlDelay), "http://example.test", 7),
        FetchAction::Requeue
    );
    assert_eq!(
        verdict_action(&mut robots, Some(RobotsVerdict::Proceed), "http://example.test", 7),
        FetchAction::Fetch
    );
    // The proceed action recorded the visit: the next check within the
    // delay window requeues.
    assert_eq!(
        robots.can_visit_url("http://example.test/ok", "http://example.test", 8),
        RobotsVerdict::CrawlDelay
    );
}
