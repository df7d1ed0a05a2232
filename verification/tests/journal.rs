use crawler::journal::EntryStatus;
use crawler::journal::JournalEntry;
use crawler::journal::JournalHistory;
use crawler::url::Url;

fn u(text: &str) -> Url {
    Url::parse(text).unwrap()
}

fn lines(ls: &[&str]) -> Vec<String> {
    ls.iter().map(|s| s.to_string()).collect()
}

#[test]
fn entry_wire_round_trip() {
    let entries = [
        JournalEntry::Pending { url: u("https://example.com/a") },
        JournalEntry::Processing { url: u("https://example.com") },
        JournalEntry::Processed { url: u("http://example.com/x/y") },
        JournalEntry::Failed { url: u("https://example.com/f") },
    ];
    for e in &entries {
        let line = e.render();
        let back = JournalEntry::parse(&line).unwrap();
        assert_eq!(back.status(), e.status());
        assert_eq!(back.url(), e.url());
    }
    assert_eq!(
        JournalEntry::Pending { url: u("https://example.com/a") }.render(),
        "pending;https://example.com/a"
    );
}

#[test]
fn parse_rejects_malformed_lines() {
    assert!(JournalEntry::parse("no semicolon here").is_none());
    assert!(JournalEntry::parse("bogus;https://example.com/x").is_none());
    assert!(JournalEntry::parse("pending;not a url").is_none());
    assert_eq!(
        JournalEntry::parse("processed;https://example.com/x").unwrap().status(),
        EntryStatus::Processed
    );
}

#[test]
fn replay_reconciles() {
    let log = lines(&[
        "pending;https://example.com/a",
        "pending;https://example.com/b",
        "processing;https://example.com/a",
        "processed;https://example.com/a",
        "pending;https://example.com/c",
        "processing;https://example.com/c",
        "this line is corrupt",
        "failed;https://example.com/b",
    ]);
    let h = JournalHistory::from_lines(&log);
    // a is processed, b is failed, c is stranded in processing, nothing pending
    assert_eq!(h.pending, Vec::<Url>::new());
    assert_eq!(h.processing, vec![u("https://example.com/c")]);
    assert_eq!(h.processed, vec![u("https://example.com/a")]);
    assert_eq!(h.failed, vec![u("https://example.com/b")]);
}

#[test]
fn replay_is_deterministic() {
    let log = lines(&[
        "pending;https://example.com/a",
        "processing;https://example.com/a",
        "pending;https://example.com/b",
        "garbage",
        "failed;https://example.com/a",
    ]);
    let h1 = JournalHistory::from_lines(&log);
    let h2 = JournalHistory::from_lines(&log);
    assert_eq!(h1.pending, h2.pending);
    assert_eq!(h1.processing, h2.processing);
    assert_eq!(h1.processed, h2.processed);
    assert_eq!(h1.failed, h2.failed);
}

#[test]
fn unterminated_processing_stays_processing() {
    let log = lines(&[
        "pending;https://example.com/a",
        "processing;https://example.com/a",
    ]);
    let h = JournalHistory::from_lines(&log);
    assert_eq!(h.pending, Vec::<Url>::new());
    assert_eq!(h.processing, vec![u("https://example.com/a")]);
    assert_eq!(h.processed, Vec::<Url>::new());
    assert_eq!(h.failed, Vec::<Url>::new());
}
