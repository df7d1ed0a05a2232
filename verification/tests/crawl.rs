use crawler::crawl::complete;
use crawler::crawl::handle_page;
use crawler::crawl::schedule;
use crawler::crawl::CrawlStep;
use crawler::journal::EntryStatus;
use crawler::queue::Queue;
use crawler::url::Url;

fn u(text: &str) -> Url {
    Url::parse(text).unwrap()
}

fn fresh_queue(seed: &Url) -> Queue {
    Queue::new_with_initial(seed, Vec::new(), Vec::new(), Vec::new(), Vec::new())
}

#[test]
fn end_to_end_scenario() {
    let base = u("https://example.com");
    let mut q = fresh_queue(&base);

    // the scheduler hands out the seed
    let root = match schedule(&mut q, 0) {
        CrawlStep::Dispatch(url) => url,
        _ => panic!("expected a dispatch"),
    };
    assert_eq!(root, base);

    // the page links to /a (in scope) and to another host (dropped)
    let body = "<html><body>\
                <a href=\"/a\">in scope</a>\
                <a href=\"https://other.com/b\">out of scope</a>\
                </body></html>";
    let entries = handle_page(&mut q, &base, body);
    assert_eq!(entries.len(), 1);
    assert_eq!(entries[0].status(), EntryStatus::Pending);
    assert_eq!(entries[0].url(), &u("https://example.com/a"));
    assert_eq!(q.counts(), (1, 1, 0, 0));

    let done = complete(&mut q, &root, true);
    assert_eq!(done.status(), EntryStatus::Processed);

    // the worker for /a succeeds too
    let a = match schedule(&mut q, 0) {
        CrawlStep::Dispatch(url) => url,
        _ => panic!("expected a dispatch"),
    };
    assert_eq!(a, u("https://example.com/a"));
    let entries = handle_page(&mut q, &base, "<html><body>no links</body></html>");
    assert!(entries.is_empty());
    complete(&mut q, &a, true);

    // processed = {root, /a}; everything else empty
    assert_eq!(q.counts(), (0, 0, 2, 0));
    assert!(matches!(schedule(&mut q, 1), CrawlStep::Drain));
    assert!(matches!(schedule(&mut q, 0), CrawlStep::Finished));
}

#[test]
fn failure_is_recorded() {
    let base = u("https://example.com");
    let mut q = fresh_queue(&base);
    let root = match schedule(&mut q, 0) {
        CrawlStep::Dispatch(url) => url,
        _ => panic!("expected a dispatch"),
    };
    let entry = complete(&mut q, &root, false);
    assert_eq!(entry.status(), EntryStatus::Failed);
    assert_eq!(q.counts(), (0, 0, 0, 1));
    assert!(matches!(schedule(&mut q, 0), CrawlStep::Finished));
}
