use pr_stats::aggregate::{collect_lifetimes, count_open_authors, duration_hours, LifetimeError};
use pr_stats::record::PrRecord;

fn open_pr(author: &str) -> PrRecord {
    PrRecord { author: Some(author.to_string()), created_at: None, closed_at: None }
}

fn authorless_pr() -> PrRecord {
    PrRecord { author: None, created_at: None, closed_at: None }
}

fn closed_pr(author: &str, created: i64, closed: i64) -> PrRecord {
    PrRecord { author: Some(author.to_string()), created_at: Some(created), closed_at: Some(closed) }
}

#[test]
fn author_counts_sum_to_authored_records() {
    let records = vec![
        open_pr("a"),
        open_pr("b"),
        authorless_pr(),
        open_pr("a"),
        open_pr("c"),
        authorless_pr(),
        open_pr("a"),
    ];
    let counts = count_open_authors(&records);
    let total: u64 = counts.iter().map(|e| e.open as u64).sum();
    assert_eq!(total, 5);
}

#[test]
fn author_counts_per_author() {
    let records = vec![open_pr("a"), open_pr("b"), open_pr("a"), open_pr("c"), open_pr("a")];
    let counts = count_open_authors(&records);
    assert_eq!(counts.len(), 3);
    let of = |name: &str| counts.iter().find(|e| e.name == name).unwrap().open;
    assert_eq!(of("a"), 3);
    assert_eq!(of("b"), 1);
    assert_eq!(of("c"), 1);
}

#[test]
fn authorless_records_are_skipped_without_error() {
    let records = vec![authorless_pr(), authorless_pr()];
    let counts = count_open_authors(&records);
    assert!(counts.is_empty());
}

#[test]
fn duration_list_length_counts_complete_records() {
    let records = vec![
        closed_pr("a", 0, 7200),
        // Missing closed_at: skipped.
        PrRecord { author: Some("b".to_string()), created_at: Some(0), closed_at: None },
        // Missing created_at: skipped.
        PrRecord { author: Some("c".to_string()), created_at: None, closed_at: Some(3600) },
        closed_pr("d", 3600, 3600),
    ];
    let lifetimes = collect_lifetimes(&records).unwrap();
    assert_eq!(lifetimes.len(), 2);
    assert_eq!(lifetimes[0].name, "a");
    assert_eq!(lifetimes[0].duration, 2);
    assert_eq!(lifetimes[1].name, "d");
    assert_eq!(lifetimes[1].duration, 0);
}

#[test]
fn thirty_hour_lifetime() {
    // created_at = 2024-01-01T00:00:00Z, closed_at = 2024-01-02T06:00:00Z.
    let records = vec![closed_pr("a", 1704067200, 1704175200)];
    let lifetimes = collect_lifetimes(&records).unwrap();
    assert_eq!(lifetimes.len(), 1);
    assert_eq!(lifetimes[0].duration, 30);
}

#[test]
fn missing_author_on_complete_record_is_an_error() {
    let records = vec![
        closed_pr("a", 0, 3600),
        PrRecord { author: None, created_at: Some(0), closed_at: Some(3600) },
    ];
    assert_eq!(collect_lifetimes(&records), Err(LifetimeError::MissingAuthor));
}

#[test]
fn duration_truncates_toward_zero() {
    // 1 h 30 min becomes 1; the same span backwards becomes -1.
    assert_eq!(duration_hours(0, 5400), 1);
    assert_eq!(duration_hours(5400, 0), -1);
    assert_eq!(duration_hours(0, 3599), 0);
    assert_eq!(duration_hours(3599, 0), 0);
}
