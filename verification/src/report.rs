use vstd::prelude::*;

verus! {

use crate::aggregate::{AuthorOpenPRs, PRDuration, LifetimeError, author_count, author_counts_ok,
    collect_lifetimes, count_open_authors, is_lifetime_of, lifetime_entry_ok, lifetimes_fit,
    lifetimes_match, nth_complete_index};
use crate::aggregate::lemma_nth_complete_in_range;
use crate::rank::{RANK_SIZE, lemma_rank_properties, rank_of, rank_top10, sorted_desc};
use crate::record::{PrRecord, has_author, has_both_timestamps};

/// The open-author report: tally the records per author, then keep the
/// `RANK_SIZE` authors with the most records, ordered by count non-increasing.
pub fn top_authors(records: &Vec<PrRecord>) -> (r: Vec<AuthorOpenPRs>)
    requires
        records@.len() <= u32::MAX,
    ensures
        exists|c: Seq<AuthorOpenPRs>| #[trigger] author_counts_ok(records@, c) && r@ == rank_of(c),
        sorted_desc(r@),
        r@.len() <= RANK_SIZE,
        forall|k: int|
            0 <= k < r@.len() ==> (#[trigger] r@[k]).open as int == author_count(
                records@,
                r@[k].name@,
            ) && r@[k].open >= 1,
{
    let counts = count_open_authors(records);
    let ghost c = counts@;
    let r = rank_top10(counts);
    proof {
        assert(author_counts_ok(records@, c) && r@ == rank_of(c));
        lemma_rank_properties(c);
        assert forall|k: int| 0 <= k < r@.len() implies (#[trigger] r@[k]).open as int
            == author_count(records@, r@[k].name@) && r@[k].open >= 1 by {
            assert(c.contains(r@[k]));
            let j = choose|j: int| 0 <= j < c.len() && c[j] == r@[k];
            assert(c[j].open as int == author_count(records@, c[j].name@));
        }
    }
    r
}

/// The lifetime report: collect one `{author, hours}` entry per record that
/// carries both timestamps, then keep the `RANK_SIZE` longest-lived, ordered
/// by duration non-increasing. Fails exactly when some record carries both
/// timestamps but no author.
pub fn top_lifetimes(records: &Vec<PrRecord>) -> (res: Result<Vec<PRDuration>, LifetimeError>)
    requires
        lifetimes_fit(records@),
    ensures
        res is Err <==> exists|m: int|
            0 <= m < records@.len() && has_both_timestamps(#[trigger] records@[m]) && !has_author(
                records@[m],
            ),
        res matches Ok(r) ==> exists|l: Seq<PRDuration>| #[trigger] lifetimes_match(records@, l)
            && r@ == rank_of(l),
        res matches Ok(r) ==> sorted_desc(r@) && r@.len() <= RANK_SIZE,
        res matches Ok(r) ==> forall|k: int|
            0 <= k < r@.len() ==> is_lifetime_of(records@, #[trigger] r@[k]),
{
    match collect_lifetimes(records) {
        Ok(list) => {
            let ghost l = list@;
            let r = rank_top10(list);
            proof {
                assert(lifetimes_match(records@, l) && r@ == rank_of(l));
                lemma_rank_properties(l);
                assert forall|k: int| 0 <= k < r@.len() implies is_lifetime_of(
                    records@,
                    #[trigger] r@[k],
                ) by {
                    assert(l.contains(r@[k]));
                    let j = choose|j: int| 0 <= j < l.len() && l[j] == r@[k];
                    assert(lifetime_entry_ok(records@, l, j));
                    let m = nth_complete_index(records@, j);
                    lemma_nth_complete_in_range(records@, j);
                    assert(0 <= m < records@.len() && has_both_timestamps(records@[m]));
                }
            }
            Ok(r)
        },
        Err(e) => Err(e),
    }
}

} // verus!
