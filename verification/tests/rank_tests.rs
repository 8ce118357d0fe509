use pr_stats::aggregate::{AuthorOpenPRs, PRDuration};
use pr_stats::rank::rank_top10;

fn author(name: &str, open: u32) -> AuthorOpenPRs {
    AuthorOpenPRs { name: name.to_string(), open }
}

fn duration(name: &str, hours: i64) -> PRDuration {
    PRDuration { name: name.to_string(), duration: hours }
}

#[test]
fn rank_empty_input_gives_empty_output() {
    let ranked = rank_top10(Vec::<AuthorOpenPRs>::new());
    assert!(ranked.is_empty());
}

#[test]
fn rank_fewer_than_ten_keeps_all_sorted() {
    let input = vec![author("a", 2), author("b", 7), author("c", 4)];
    let ranked = rank_top10(input);
    assert_eq!(ranked.len(), 3);
    assert_eq!(ranked[0], author("b", 7));
    assert_eq!(ranked[1], author("c", 4));
    assert_eq!(ranked[2], author("a", 2));
}

#[test]
fn rank_truncates_to_ten() {
    let mut input = Vec::new();
    for i in 0..15u32 {
        input.push(author(&format!("user{}", i), i));
    }
    let ranked = rank_top10(input.clone());
    assert_eq!(ranked.len(), 10);
    // Non-increasing by metric, and the ten largest of 0..15 are 14..=5.
    for (k, entry) in ranked.iter().enumerate() {
        assert_eq!(entry.open, 14 - k as u32);
    }
    // Every output entry exists in the input with an equal metric.
    for entry in &ranked {
        assert!(input.iter().any(|e| e == entry));
    }
}

#[test]
fn rank_sorts_durations_descending() {
    let input = vec![duration("p", -3), duration("q", 120), duration("r", 0)];
    let ranked = rank_top10(input);
    assert_eq!(ranked.len(), 3);
    assert_eq!(ranked[0], duration("q", 120));
    assert_eq!(ranked[1], duration("r", 0));
    assert_eq!(ranked[2], duration("p", -3));
}

#[test]
fn rank_keeps_tied_entries_in_order() {
    let input = vec![author("first", 5), author("second", 5), author("third", 5)];
    let ranked = rank_top10(input);
    assert_eq!(ranked.len(), 3);
    assert_eq!(ranked[0].name, "first");
    assert_eq!(ranked[1].name, "second");
    assert_eq!(ranked[2].name, "third");
}

#[test]
fn rank_is_idempotent() {
    let mut input = Vec::new();
    for i in 0..13u32 {
        input.push(author(&format!("user{}", i % 6), i % 4 + 1));
    }
    let once = rank_top10(input);
    let twice = rank_top10(once.clone());
    assert_eq!(once, twice);
}

#[test]
fn rank_is_idempotent_with_ties() {
    let input = vec![author("x", 3), author("y", 3), author("z", 9)];
    let once = rank_top10(input);
    let twice = rank_top10(once.clone());
    assert_eq!(once, twice);
}
