use sitecrawl::ledger::Ledger;

#[test]
fn test_mark_then_visited_persists() {
    let mut ledger = Ledger::new();
    let u = "http://example.com/page".to_string();

    assert!(!ledger.has_visited(&u));
    ledger.mark_visited(u.clone());
    assert!(ledger.has_visited(&u));

    // later activity does not unmark it
    ledger.mark_visited("http://example.com/other".to_string());
    let _ = ledger.try_admit(&"/\\d+".to_string(), 3);
    assert!(ledger.has_visited(&u));
    assert_eq!(ledger.visited_count(), 2);
}

#[test]
fn test_mark_twice_counts_once() {
    let mut ledger = Ledger::new();
    let u = "http://example.com/page".to_string();
    ledger.mark_visited(u.clone());
    ledger.mark_visited(u.clone());
    assert_eq!(ledger.visited_count(), 1);
}

#[test]
fn test_try_admit_exactly_limit() {
    let mut ledger = Ledger::new();
    let p = "/item/\\d+".to_string();
    let other = "/news/\\d+".to_string();

    // true exactly `limit` times for a fixed key, interleaved with
    // another key, then false thereafter
    assert!(ledger.try_admit(&p, 3));
    assert!(ledger.try_admit(&other, 3));
    assert!(ledger.try_admit(&p, 3));
    assert!(ledger.try_admit(&other, 3));
    assert!(ledger.try_admit(&p, 3));
    assert!(!ledger.try_admit(&p, 3));
    assert!(!ledger.try_admit(&p, 3));

    // the other key has its own counter
    assert!(ledger.try_admit(&other, 3));
    assert!(!ledger.try_admit(&other, 3));
}

#[test]
fn test_try_admit_zero_limit() {
    let mut ledger = Ledger::new();
    assert!(!ledger.try_admit(&"anything".to_string(), 0));
}
