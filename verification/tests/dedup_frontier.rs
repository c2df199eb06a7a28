//! Claim semantics, record storage, and frontier bookkeeping.

use gemcrawl::dedup::DedupStore;
use gemcrawl::engine::enqueue_new;
use gemcrawl::frontier::Frontier;

#[test]
fn claim_is_granted_exactly_once() {
    let mut store = DedupStore::new();
    let key = "gemini://host/a.gmi".to_string();
    let mut granted: usize = 0;
    for _ in 0..5 {
        if store.claim(key.clone()) {
            granted += 1;
        }
    }
    assert_eq!(granted, 1);
}

#[test]
fn claim_distinguishes_locations() {
    let mut store = DedupStore::new();
    assert!(store.claim("gemini://host/a".to_string()));
    assert!(store.claim("gemini://host/b".to_string()));
    assert!(!store.claim("gemini://host/a".to_string()));
    assert!(store.contains(&"gemini://host/b".to_string()));
    assert!(!store.contains(&"gemini://host/c".to_string()));
}

#[test]
fn put_and_get_round_trip() {
    let mut store = DedupStore::new();
    let key = "gemini://host/page.gmi".to_string();
    let body = "# hello\n".to_string();
    assert!(store.claim(key.clone()));
    assert!(store.get(&key).is_none());
    store.put(&key, &body);
    assert_eq!(store.get(&key), Some(&body));
    assert!(store.get(&"gemini://host/other".to_string()).is_none());
}

#[test]
fn frontier_counts_live_work() {
    let mut f = Frontier::new();
    assert!(f.is_closed());
    f.push("gemini://host/a".to_string());
    f.push("gemini://host/b".to_string());
    assert!(!f.is_closed());
    assert_eq!(f.pending_len(), 2);

    let first = f.pop().unwrap();
    assert_eq!(first, "gemini://host/b");
    // The popped entry is still live until its processing finishes.
    assert!(!f.is_closed());
    f.finish();
    assert!(!f.is_closed());

    let second = f.pop().unwrap();
    assert_eq!(second, "gemini://host/a");
    f.finish();
    assert!(f.is_closed());
    assert!(f.pop().is_none());
}

#[test]
fn enqueue_new_collapses_duplicates() {
    let mut store = DedupStore::new();
    let mut frontier = Frontier::new();
    assert!(store.claim("gemini://host/seen".to_string()));
    let links = vec![
        "gemini://host/a".to_string(),
        "gemini://host/seen".to_string(),
        "gemini://host/b".to_string(),
        "gemini://host/a".to_string(),
    ];
    enqueue_new(&mut store, &mut frontier, &links);
    // Only the two unseen distinct locations are enqueued, in order.
    assert_eq!(frontier.pending_len(), 2);
    let last = f_pop(&mut frontier);
    let first = f_pop(&mut frontier);
    assert_eq!(first, "gemini://host/a");
    assert_eq!(last, "gemini://host/b");
    assert!(store.contains(&"gemini://host/b".to_string()));
}

fn f_pop(f: &mut Frontier) -> String {
    f.pop().unwrap()
}
