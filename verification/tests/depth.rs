use sitecrawl::depth::{calculate_url_depth, parse_base, url_depth};

#[test]
fn test_url_depth_calculation() {
    let base_url = parse_base("http://example.com").unwrap();

    // the domain root is depth 0
    assert_eq!(calculate_url_depth("http://example.com", &base_url), 0);

    // one path segment
    assert_eq!(calculate_url_depth("http://example.com/page", &base_url), 1);

    // two path segments
    assert_eq!(
        calculate_url_depth("http://example.com/category/page", &base_url),
        2
    );

    // three path segments
    assert_eq!(
        calculate_url_depth("http://example.com/category/subcategory/page", &base_url),
        3
    );

    // a query string adds nothing
    assert_eq!(
        calculate_url_depth("http://example.com/page?param=value", &base_url),
        1
    );

    // a fragment adds nothing
    assert_eq!(
        calculate_url_depth("http://example.com/page#section", &base_url),
        1
    );

    // a trailing slash adds nothing
    assert_eq!(
        calculate_url_depth("http://example.com/category/", &base_url),
        1
    );
}

#[test]
fn test_depth_out_of_scope() {
    let base_url = parse_base("http://example.com").unwrap();

    // a link on another host is ascribed depth 0
    assert_eq!(calculate_url_depth("http://other.com/a/b", &base_url), 0);
}

#[test]
fn test_raw_depth() {
    assert_eq!(url_depth("http://example.com"), 0);
    assert_eq!(url_depth("http://example.com/"), 0);
    assert_eq!(url_depth("http://example.com/a/b/c"), 3);
    assert_eq!(url_depth("http://example.com/a//b"), 2);
    assert_eq!(url_depth("http://example.com/a?x=/y/z"), 1);
}
