use pr_stats::aggregate::LifetimeError;
use pr_stats::record::PrRecord;
use pr_stats::report::{top_authors, top_lifetimes};

fn closed_pr(author: &str, created: i64, closed: i64) -> PrRecord {
    PrRecord { author: Some(author.to_string()), created_at: Some(created), closed_at: Some(closed) }
}

#[test]
fn lifetime_report_ranks_longest_first() {
    let records = vec![
        closed_pr("a", 0, 3600 * 5),
        closed_pr("b", 0, 3600 * 11),
        closed_pr("c", 3600, 3600 * 3),
        closed_pr("a", 0, 3600 * 7),
    ];
    let ranked = top_lifetimes(&records).unwrap();
    assert_eq!(ranked.len(), 4);
    assert_eq!((ranked[0].name.as_str(), ranked[0].duration), ("b", 11));
    assert_eq!((ranked[1].name.as_str(), ranked[1].duration), ("a", 7));
    assert_eq!((ranked[2].name.as_str(), ranked[2].duration), ("a", 5));
    assert_eq!((ranked[3].name.as_str(), ranked[3].duration), ("c", 2));
}

#[test]
fn lifetime_report_keeps_ten_of_twelve() {
    let mut records = Vec::new();
    for i in 0..12i64 {
        records.push(closed_pr(&format!("user{}", i), 0, 3600 * (i + 1)));
    }
    let ranked = top_lifetimes(&records).unwrap();
    assert_eq!(ranked.len(), 10);
    for (k, entry) in ranked.iter().enumerate() {
        assert_eq!(entry.duration, 12 - k as i64);
    }
}

#[test]
fn lifetime_report_propagates_missing_author() {
    let records = vec![
        closed_pr("a", 0, 3600),
        PrRecord { author: None, created_at: Some(0), closed_at: Some(7200) },
    ];
    assert_eq!(top_lifetimes(&records), Err(LifetimeError::MissingAuthor));
}

#[test]
fn author_report_on_empty_input() {
    let ranked = top_authors(&Vec::new());
    assert!(ranked.is_empty());
}
