use crawler::queue::Queue;
use crawler::url::Url;

fn u(text: &str) -> Url {
    Url::parse(text).unwrap()
}

fn fresh_queue(seed: &Url) -> Queue {
    Queue::new_with_initial(seed, Vec::new(), Vec::new(), Vec::new(), Vec::new())
}

#[test]
fn queue_dedup() {
    let seed = u("https://example.com");
    let mut q = fresh_queue(&seed);
    let a = u("https://example.com/a");

    q.add_pending(&a);
    q.add_pending(&a);
    // seed + a, each once
    assert_eq!(q.counts(), (2, 0, 0, 0));

    let first = q.next().unwrap();
    assert_eq!(first, seed);
    let second = q.next().unwrap();
    assert_eq!(second, a);
    q.mark_as_processed(&a);
    q.add_pending(&a);
    // processed URLs are never re-pended
    assert_eq!(q.counts(), (0, 1, 1, 0));

    q.mark_as_failed(&seed);
    q.add_pending(&seed);
    // failed URLs re-enter pending on rediscovery
    assert_eq!(q.counts(), (1, 0, 1, 0));
}

#[test]
fn no_double_dispatch() {
    let seed = u("https://example.com");
    let mut q = fresh_queue(&seed);
    q.add_pending(&u("https://example.com/a"));
    q.add_pending(&u("https://example.com/b"));

    let mut seen: Vec<Url> = Vec::new();
    let mut total_before = {
        let (p, r, d, f) = q.counts();
        p + r + d + f
    };
    while let Some(next) = q.next() {
        assert!(!seen.contains(&next), "a URL was dispatched twice");
        seen.push(next);
        let (p, r, d, f) = q.counts();
        assert!(p + r + d + f >= total_before, "the queue forgot a URL");
        total_before = p + r + d + f;
    }
    assert_eq!(seen.len(), 3);
    assert_eq!(q.counts(), (0, 3, 0, 0));
}

#[test]
fn seeding_from_history() {
    let seed = u("https://example.com");
    let pending = vec![u("https://example.com/p"), u("https://example.com/p")];
    let processing = vec![u("https://example.com/r")];
    let processed = vec![u("https://example.com/d")];
    let failed = vec![u("https://example.com/f")];
    let mut q = Queue::new_with_initial(&seed, pending, processing, processed, failed);
    // the duplicate pending entry collapses; the seed is re-admitted
    assert_eq!(q.counts(), (2, 1, 1, 1));
    assert_eq!(q.next().unwrap(), u("https://example.com/p"));
    assert_eq!(q.next().unwrap(), seed);
    assert!(q.next().is_none());
}
