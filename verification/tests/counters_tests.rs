use libcrawl::CrawlCounters;

#[test]
fn counters_start_where_told() {
    let c = CrawlCounters::new(1, 2, 3, 4, 5);
    assert_eq!(c.visited, 1);
    assert_eq!(c.failed, 2);
    assert_eq!(c.initial, 3);
    assert_eq!(c.extra, 4);
    assert_eq!(c.queued, 5);
}

#[test]
fn increments_touch_one_counter() {
    let mut c = CrawlCounters::new(0, 0, 0, 0, 0);
    c.increment_visited();
    c.increment_visited();
    c.increment_failed();
    c.increment_queued();
    assert_eq!(c.visited, 2);
    assert_eq!(c.failed, 1);
    assert_eq!(c.queued, 1);
    assert_eq!(c.extra, 0);
    assert_eq!(c.initial, 0);
    c.decrement_queued();
    assert_eq!(c.queued, 0);
}

#[test]
fn decrement_wraps_like_an_atomic() {
    let mut c = CrawlCounters::new(0, 0, 0, 0, 0);
    c.decrement_queued();
    assert_eq!(c.queued, u64::MAX);
}

#[test]
fn add_to_by_name() {
    let mut c = CrawlCounters::new(0, 0, 0, 0, 0);
    c.add_to("visited", 10);
    c.add_to("failed", 20);
    c.add_to("extra", 30);
    c.add_to("queued", 40);
    c.add_to("initial", 50);
    c.add_to("unheard-of", 60);
    assert_eq!(c.visited, 10);
    assert_eq!(c.failed, 20);
    assert_eq!(c.extra, 30);
    assert_eq!(c.queued, 40);
    assert_eq!(c.initial, 50);
}

#[test]
fn ongoing_report_text() {
    let c = CrawlCounters::new(3, 1, 0, 7, 2);
    let expected = "Visited : 3\nFailed : 1\nExtra Extracted : 7\nLinks in Queue : 2\n\
                    <===========================================================>\n";
    assert_eq!(c.current_ongoing(), expected);
}
