use sitecrawl::normalize::normalize_url;

#[test]
fn test_normalize_url() {
    assert_eq!(normalize_url("http://example.com"), "http://example.com");
    assert_eq!(normalize_url("http://example.com/"), "http://example.com");
    assert_eq!(
        normalize_url("http://example.com/page/"),
        "http://example.com/page"
    );
    assert_eq!(
        normalize_url("http://example.com/PAGE/"),
        "http://example.com/page"
    );
    assert_eq!(
        normalize_url("HTTP://EXAMPLE.COM/PAGE"),
        "http://example.com/page"
    );
}

#[test]
fn test_normalize_case_and_slash_insensitive() {
    // upper case and a trailing slash make no difference
    assert_eq!(
        normalize_url("HTTP://EXAMPLE.COM/PAGE/"),
        normalize_url("http://example.com/page")
    );
}

#[test]
fn test_normalize_idempotent() {
    let once = normalize_url("HTTP://Example.COM/Page/#frag");
    let twice = normalize_url(&once);
    assert_eq!(once, twice);
    assert_eq!(once, "http://example.com/page");
}

#[test]
fn test_normalize_strips_fragment() {
    assert_eq!(
        normalize_url("http://example.com/page#section"),
        "http://example.com/page"
    );
    // everything after the first hash goes, trailing slashes before it too
    assert_eq!(
        normalize_url("http://example.com/a/#b#c"),
        "http://example.com/a"
    );
}

#[test]
fn test_normalize_many_slashes() {
    assert_eq!(normalize_url("http://example.com//"), "http://example.com");
}

#[test]
fn test_normalize_unicode_case() {
    // the fold is the full Unicode one, not only ASCII
    assert_eq!(
        normalize_url("http://example.com/CAFÉ"),
        "http://example.com/café"
    );
}
