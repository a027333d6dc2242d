use libcrawl::response::Response;

fn sample_response(url: &str, html: &str) -> Response {
    let headers = vec![
        ("host".to_string(), "example.test".to_string()),
        ("content-length".to_string(), "999".to_string()),
    ];
    Response::new(
        "203.0.113.9".to_string(),
        "HTTP/1.1".to_string(),
        "200 OK".to_string(),
        url,
        html,
        html.len() as u64,
        &headers,
        "2020-01-01T00:00:00+00:00",
    )
}

#[test]
fn response_keeps_what_it_was_given() {
    let r = sample_response("http://example.test/a", "<html><body>hi</body></html>");
    assert_eq!(r.ip, "203.0.113.9");
    assert_eq!(r.version, "HTTP/1.1");
    assert_eq!(r.status, "200 OK");
    assert_eq!(r.url, "http://example.test/a");
    assert_eq!(r.content_length, 28);
}

#[test]
fn reported_content_length_replaces_the_header() {
    let r = sample_response("http://example.test/a", "<html><body>hi</body></html>");
    assert_eq!(r.headers, "host: example.test\r\ncontent-length: 28");
}

#[test]
fn record_headers_in_order() {
    let html = "<html><body>hello</body></html>";
    let r = sample_response("http://example.test/a", html);
    let rec = r.to_warcrecord(None);
    assert_eq!(rec.version, "1.0");
    assert_eq!(rec.body, "hello");
    assert_eq!(rec.headers.len(), 6);
    assert_eq!(rec.headers[0].0, "WARC-Record-ID");
    assert!(!rec.headers[0].1.is_empty());
    assert_eq!(rec.headers[1].0, "WARC-Target-URI");
    assert_eq!(rec.headers[1].1, b"http://example.test/a".to_vec());
    assert_eq!(rec.headers[2].0, "WARC-Type");
    assert_eq!(rec.headers[2].1, b"warcinfo".to_vec());
    assert_eq!(rec.headers[3].0, "WARC-Date");
    assert_eq!(rec.headers[3].1, b"2020-01-01T00:00:00+00:00".to_vec());
    assert_eq!(rec.headers[4].0, "WARC-IP-Address");
    assert_eq!(rec.headers[4].1, b"203.0.113.9".to_vec());
    assert_eq!(rec.headers[5].0, "Content-Length");
    assert_eq!(rec.headers[5].1, b"5".to_vec());
}

#[test]
fn record_ids_differ_between_records() {
    let r = sample_response("http://example.test/a", "<html><body>x</body></html>");
    let rec1 = r.to_warcrecord(None);
    let rec2 = r.to_warcrecord(None);
    assert_ne!(rec1.headers[0].1, rec2.headers[0].1);
}

#[test]
fn record_can_reuse_a_parsed_dom() {
    let html = "<html><body>shared</body></html>";
    let r = sample_response("http://example.test/a", html);
    let dom = r.to_soup();
    let rec = r.to_warcrecord(Some(&dom));
    assert_eq!(rec.body, "shared");
}
