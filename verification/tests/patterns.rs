use sitecrawl::pattern::{default_patterns, get_url_pattern, load_unique_patterns, PatternError};

#[test]
fn test_load_unique_patterns() {
    // the same pattern listed twice collapses to one compiled expression
    let content = "/news/\\d+\n/article/\\d+\n/blog/\\d{4}/\\d{2}/\\d{2}/.*\n/news/\\d+\n";

    let patterns = load_unique_patterns(content).unwrap();

    assert_eq!(patterns.len(), 3);
    assert!(patterns.iter().any(|p| p.as_str() == "/news/\\d+"));
    assert!(patterns.iter().any(|p| p.as_str() == "/article/\\d+"));
    assert!(patterns
        .iter()
        .any(|p| p.as_str() == "/blog/\\d{4}/\\d{2}/\\d{2}/.*"));
}

#[test]
fn test_load_patterns_trims_and_skips_blanks() {
    let content = "  /a/\\d+  \n\n\t\n/b/\\d+\n";
    let patterns = load_unique_patterns(content).unwrap();
    assert_eq!(patterns.len(), 2);
    assert_eq!(patterns[0].as_str(), "/a/\\d+");
    assert_eq!(patterns[1].as_str(), "/b/\\d+");
}

#[test]
fn test_load_patterns_empty() {
    let patterns = load_unique_patterns("").unwrap();
    assert_eq!(patterns.len(), 0);
}

#[test]
fn test_load_patterns_invalid() {
    // an unclosed character class does not compile
    match load_unique_patterns("/ok/\\d+\n[\n") {
        Err(e) => assert_eq!(e, PatternError::InvalidPattern),
        Ok(_) => panic!("an invalid pattern must be refused"),
    }
}

#[test]
fn test_default_pattern() {
    let patterns = default_patterns().unwrap();
    assert_eq!(patterns.len(), 1);
    assert_eq!(patterns[0].as_str(), "/\\d+");
}

#[test]
fn test_classification_first_match() {
    let patterns =
        load_unique_patterns("/news/\\d+\n/\\d+\n").unwrap();
    // both expressions match; the first in file order wins
    assert_eq!(
        get_url_pattern("http://example.com/news/7", &patterns),
        "/news/\\d+"
    );
    // only the second matches
    assert_eq!(
        get_url_pattern("http://example.com/item/7", &patterns),
        "/\\d+"
    );
}

#[test]
fn test_classification_fallback_is_url_itself() {
    let patterns = default_patterns().unwrap();
    // nothing matches: the URL is its own key
    assert_eq!(
        get_url_pattern("http://example.com/about", &patterns),
        "http://example.com/about"
    );
}

#[test]
fn test_load_patterns_unicode_whitespace() {
    // a line padded with no-break spaces is trimmed like any other
    let content = "\u{00A0}/a/\\d+\u{00A0}\n";
    let patterns = load_unique_patterns(content).unwrap();
    assert_eq!(patterns.len(), 1);
    assert_eq!(patterns[0].as_str(), "/a/\\d+");
}
