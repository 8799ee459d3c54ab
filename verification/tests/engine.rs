use sitecrawl::engine::Crawler;
use sitecrawl::pattern::default_patterns;

/// Drive a whole crawl over an in-memory site: each entry maps a
/// fragment-stripped URL to `(status, body)`; unknown URLs come back
/// as empty 200 pages.  Returns the fetched URLs in order.
fn run_crawl(crawler: &mut Crawler, pages: &[(&str, u16, &str)]) -> Vec<String> {
    let mut fetched = Vec::new();
    while let Some(url) = crawler.next_target() {
        let (status, body) = pages
            .iter()
            .find(|(u, _, _)| *u == url)
            .map(|(_, s, b)| (*s, *b))
            .unwrap_or((200, ""));
        fetched.push(url.clone());
        crawler.expand(&url, status, body);
    }
    fetched
}

#[test]
fn test_crawl_dedup_and_scope() {
    // seed page with a duplicate link, a query-and-fragment link, and a
    // cross-domain link: two distinct pages are visited besides the seed
    let seed_body = "<html><body><a href=\"/a\">one</a><a href=\"/a\">one again</a><a href=\"/b?x=1#frag\">two</a><a href=\"http://other.com/c\">elsewhere</a></body></html>";
    let mut crawler =
        Crawler::new("http://example.com/", 1, 3, default_patterns().unwrap()).unwrap();
    let fetched = run_crawl(&mut crawler, &[("http://example.com/", 200, seed_body)]);

    assert_eq!(
        fetched,
        vec![
            "http://example.com/".to_string(),
            "http://example.com/a".to_string(),
            "http://example.com/b?x=1".to_string(),
        ]
    );
    assert_eq!(crawler.visited_count(), 3);
}

#[test]
fn test_crawl_404_seed_expands_nothing() {
    let seed_body = "<a href=\"/a\">one</a><a href=\"/b\">two</a>";
    let mut crawler =
        Crawler::new("http://example.com/", 1, 3, default_patterns().unwrap()).unwrap();
    let fetched = run_crawl(&mut crawler, &[("http://example.com/", 404, seed_body)]);

    assert_eq!(fetched, vec!["http://example.com/".to_string()]);
    assert_eq!(crawler.visited_count(), 1);
}

#[test]
fn test_crawl_pattern_cap() {
    // four links fall under the digit pattern; with the cap at 3 the
    // fourth is skipped
    let seed_body = "<a href=\"/item/1\">1</a><a href=\"/item/2\">2</a><a href=\"/item/3\">3</a><a href=\"/item/4\">4</a>";
    let mut crawler =
        Crawler::new("http://example.com/", 2, 3, default_patterns().unwrap()).unwrap();
    let fetched = run_crawl(&mut crawler, &[("http://example.com/", 200, seed_body)]);

    assert_eq!(
        fetched,
        vec![
            "http://example.com/".to_string(),
            "http://example.com/item/1".to_string(),
            "http://example.com/item/2".to_string(),
            "http://example.com/item/3".to_string(),
        ]
    );
    assert_eq!(crawler.visited_count(), 4);
}

#[test]
fn test_crawl_depth_limit() {
    // with maximum depth 1 the depth-2 link is not followed
    let seed_body = "<a href=\"/a\">a</a>";
    let a_body = "<a href=\"/a/deeper\">deeper</a>";
    let mut crawler =
        Crawler::new("http://example.com/", 1, 3, default_patterns().unwrap()).unwrap();
    let fetched = run_crawl(
        &mut crawler,
        &[
            ("http://example.com/", 200, seed_body),
            ("http://example.com/a", 200, a_body),
        ],
    );

    assert_eq!(
        fetched,
        vec![
            "http://example.com/".to_string(),
            "http://example.com/a".to_string(),
        ]
    );
}

#[test]
fn test_crawl_depth_first_order() {
    // each page's first link is explored, subtree and all, before the
    // next sibling
    let seed_body = "<a href=\"/a\">a</a><a href=\"/b\">b</a>";
    let a_body = "<a href=\"/a/x\">x</a>";
    let mut crawler =
        Crawler::new("http://example.com/", 2, 9, default_patterns().unwrap()).unwrap();
    let fetched = run_crawl(
        &mut crawler,
        &[
            ("http://example.com/", 200, seed_body),
            ("http://example.com/a", 200, a_body),
        ],
    );

    assert_eq!(
        fetched,
        vec![
            "http://example.com/".to_string(),
            "http://example.com/a".to_string(),
            "http://example.com/a/x".to_string(),
            "http://example.com/b".to_string(),
        ]
    );
}

#[test]
fn test_crawl_skips_tel_and_mailto() {
    let seed_body = "<a href=\"tel:+15551234\">call</a><a href=\"mailto:x@example.com\">mail</a><a href=\"/a\">a</a>";
    let mut crawler =
        Crawler::new("http://example.com/", 1, 3, default_patterns().unwrap()).unwrap();
    let fetched = run_crawl(&mut crawler, &[("http://example.com/", 200, seed_body)]);

    assert_eq!(
        fetched,
        vec![
            "http://example.com/".to_string(),
            "http://example.com/a".to_string(),
        ]
    );
}

#[test]
fn test_new_rejects_bad_seed() {
    assert!(Crawler::new("not a url", 1, 3, Vec::new()).is_none());
}
