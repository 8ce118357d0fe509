use pr_stats::record::PrRecord;
use pr_stats::report::top_authors;
use pr_stats::walk::Walker;

fn open_pr(author: &str) -> PrRecord {
    PrRecord { author: Some(author.to_string()), created_at: None, closed_at: None }
}

fn page(authors: &[&str]) -> Vec<PrRecord> {
    authors.iter().map(|a| open_pr(a)).collect()
}

/// A canned sequence of pages standing in for the remote, paginated API.
struct MockFetcher {
    pages: Vec<(Vec<PrRecord>, Option<String>)>,
    requests: usize,
}

impl MockFetcher {
    fn fetch(&mut self, target: &str) -> (Vec<PrRecord>, Option<String>) {
        self.requests += 1;
        let idx: usize = target.parse().unwrap();
        let (records, next) = &self.pages[idx];
        (records.clone(), next.clone())
    }
}

/// Drive a walk over the fetcher, as the program's fetch loop does, and
/// return every drained record.
fn run_walk(fetcher: &mut MockFetcher) -> Vec<PrRecord> {
    let (first_records, first_next) = fetcher.pages[0].clone();
    fetcher.requests += 1;
    let mut walker = Walker::start(first_records, first_next);
    let mut drained: Vec<PrRecord> = Vec::new();
    while let Some(target) = walker.next_target() {
        let target = target.clone();
        let (records, next) = fetcher.fetch(&target);
        let mut batch = walker.on_page(records, next);
        drained.append(&mut batch);
    }
    drained
}

#[test]
fn two_pages_rank_authors_by_open_count() {
    let mut fetcher = MockFetcher {
        pages: vec![
            (page(&["a", "b", "a"]), Some("1".to_string())),
            (page(&["c", "a", "b"]), None),
        ],
        requests: 0,
    };
    let drained = run_walk(&mut fetcher);
    assert_eq!(drained.len(), 6);
    let ranked = top_authors(&drained);
    assert_eq!(ranked.len(), 3);
    assert_eq!(ranked[0].name, "a");
    assert_eq!(ranked[0].open, 3);
    assert_eq!(ranked[1].name, "b");
    assert_eq!(ranked[1].open, 2);
    assert_eq!(ranked[2].name, "c");
    assert_eq!(ranked[2].open, 1);
}

#[test]
fn walk_stops_when_a_page_reports_no_cursor() {
    let mut fetcher = MockFetcher {
        pages: vec![
            (page(&["a"]), Some("1".to_string())),
            (page(&["b"]), Some("2".to_string())),
            (page(&["c"]), None),
        ],
        requests: 0,
    };
    let drained = run_walk(&mut fetcher);
    // One request per page, and none after the page without a cursor.
    assert_eq!(fetcher.requests, 3);
    assert_eq!(drained.len(), 3);
}

#[test]
fn single_page_without_cursor_drains_nothing() {
    // The walk buffers a received page and drains it only when the next page
    // arrives, so a result set that fits in one cursorless page yields no
    // drained records; they stay buffered.
    let mut fetcher = MockFetcher { pages: vec![(page(&["a", "b"]), None)], requests: 0 };
    let (first_records, first_next) = fetcher.pages[0].clone();
    fetcher.requests += 1;
    let walker = Walker::start(first_records, first_next);
    assert!(walker.next_target().is_none());
    assert_eq!(fetcher.requests, 1);
    assert_eq!(walker.pending.len(), 2);
}
