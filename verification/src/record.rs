use vstd::prelude::*;

verus! {

/// A pull-request record as the aggregation pipelines see it: the author's
/// login, and the creation and closing instants as whole seconds of Unix time.
/// Any of the three may be absent in what the remote API returns.
#[derive(Debug, Clone)]
pub struct PrRecord {
    pub author: Option<String>,
    pub created_at: Option<i64>,
    pub closed_at: Option<i64>,
}

/// The record carries an author identity, and it reads `name`.
pub open spec fn author_matches(r: PrRecord, name: Seq<char>) -> bool {
    match r.author {
        Some(a) => a@ == name,
        None => false,
    }
}

/// The record carries some author identity.
pub open spec fn has_author(r: PrRecord) -> bool {
    r.author is Some
}

/// The record carries both a creation and a closing instant.
pub open spec fn has_both_timestamps(r: PrRecord) -> bool {
    r.created_at is Some && r.closed_at is Some
}

/// The creation instant, in seconds; meaningful only when present.
pub open spec fn created_sec(r: PrRecord) -> int {
    match r.created_at {
        Some(t) => t as int,
        None => 0,
    }
}

/// The closing instant, in seconds; meaningful only when present.
pub open spec fn closed_sec(r: PrRecord) -> int {
    match r.closed_at {
        Some(t) => t as int,
        None => 0,
    }
}

} // verus!
