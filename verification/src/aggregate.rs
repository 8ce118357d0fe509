use vstd::prelude::*;

verus! {

use crate::rank::Ranked;
use crate::record::{PrRecord, author_matches, has_author, has_both_timestamps, created_sec,
    closed_sec};

/// An author together with how many open pull requests they have.
#[derive(Debug, Clone, PartialEq, Eq)]
pub struct AuthorOpenPRs {
    pub name: String,
    pub open: u32,
}

/// A closed pull request's author together with how long the request stayed
/// open, in whole hours.
#[derive(Debug, Clone, PartialEq, Eq)]
pub struct PRDuration {
    pub name: String,
    pub duration: i64,
}

/// The lifetime collector failed on a record it cannot skip.
#[derive(Debug, Clone, Copy, PartialEq, Eq, Structural)]
pub enum LifetimeError {
    /// A record carried both timestamps but no author identity.
    MissingAuthor,
}

impl Ranked for AuthorOpenPRs {
    open spec fn metric(&self) -> int {
        self.open as int
    }

    fn metric_val(&self) -> (m: i64) {
        self.open as i64
    }
}

impl Ranked for PRDuration {
    open spec fn metric(&self) -> int {
        self.duration as int
    }

    fn metric_val(&self) -> (m: i64) {
        self.duration
    }
}

/// The author identity a record carries; meaningful only when one is present.
pub open spec fn author_view(r: PrRecord) -> Seq<char> {
    match r.author {
        Some(a) => a@,
        None => Seq::empty(),
    }
}

/// How many records carry exactly the author identity `name`.
pub open spec fn author_count(s: Seq<PrRecord>, name: Seq<char>) -> nat
    decreases s.len(),
{
    if s.len() == 0 {
        0
    } else {
        author_count(s.drop_last(), name) + (if author_matches(s.last(), name) {
            1nat
        } else {
            0nat
        })
    }
}

/// How many records carry some author identity.
pub open spec fn authored_count(s: Seq<PrRecord>) -> nat
    decreases s.len(),
{
    if s.len() == 0 {
        0
    } else {
        authored_count(s.drop_last()) + (if has_author(s.last()) {
            1nat
        } else {
            0nat
        })
    }
}

/// The sum of the open counts of a list of entries.
pub open spec fn sum_open(s: Seq<AuthorOpenPRs>) -> int
    decreases s.len(),
{
    if s.len() == 0 {
        0
    } else {
        sum_open(s.drop_last()) + s.last().open
    }
}

/// Some entry of `acc` is for the author called `name`.
pub open spec fn has_entry_for(acc: Seq<AuthorOpenPRs>, name: Seq<char>) -> bool {
    exists|k: int| 0 <= k < acc.len() && acc[k].name@ == name
}

/// `c` is an author tally of `records`: one entry per distinct author that
/// occurs, counting exactly that author's records, every count at least one,
/// and the counts summing to the number of records that carry an author.
pub open spec fn author_counts_ok(records: Seq<PrRecord>, c: Seq<AuthorOpenPRs>) -> bool {
    &&& forall|k: int|
        0 <= k < c.len() ==> (#[trigger] c[k]).open as int == author_count(records, c[k].name@)
    &&& forall|k: int| 0 <= k < c.len() ==> (#[trigger] c[k]).open >= 1
    &&& forall|k1: int, k2: int| 0 <= k1 < k2 < c.len() ==> c[k1].name@ != c[k2].name@
    &&& forall|m: int|
        0 <= m < records.len() && has_author(#[trigger] records[m]) ==> has_entry_for(
            c,
            author_view(records[m]),
        )
    &&& sum_open(c) == authored_count(records)
}

proof fn lemma_author_count_push(s: Seq<PrRecord>, r: PrRecord, name: Seq<char>)
    ensures
        author_count(s.push(r), name) == author_count(s, name) + (if author_matches(r, name) {
            1int
        } else {
            0int
        }),
{
    assert(s.push(r).drop_last() =~= s);
    assert(s.push(r).last() == r);
}

proof fn lemma_authored_count_push(s: Seq<PrRecord>, r: PrRecord)
    ensures
        authored_count(s.push(r)) == authored_count(s) + (if has_author(r) {
            1int
        } else {
            0int
        }),
{
    assert(s.push(r).drop_last() =~= s);
    assert(s.push(r).last() == r);
}

proof fn lemma_sum_open_push(s: Seq<AuthorOpenPRs>, e: AuthorOpenPRs)
    ensures
        sum_open(s.push(e)) == sum_open(s) + e.open,
{
    assert(s.push(e).drop_last() =~= s);
    assert(s.push(e).last() == e);
}

proof fn lemma_sum_open_update(s: Seq<AuthorOpenPRs>, j: int, e: AuthorOpenPRs)
    requires
        0 <= j < s.len(),
    ensures
        sum_open(s.update(j, e)) == sum_open(s) - s[j].open + e.open,
    decreases s.len(),
{
    if j == s.len() - 1 {
        assert(s.update(j, e).drop_last() =~= s.drop_last());
        assert(s.update(j, e).last() == e);
    } else {
        lemma_sum_open_update(s.drop_last(), j, e);
        assert(s.update(j, e).drop_last() =~= s.drop_last().update(j, e));
        assert(s.update(j, e).last() == s.last());
    }
}

proof fn lemma_author_count_le_len(s: Seq<PrRecord>, name: Seq<char>)
    ensures
        author_count(s, name) <= s.len(),
    decreases s.len(),
{
    if s.len() != 0 {
        lemma_author_count_le_len(s.drop_last(), name);
    }
}

proof fn lemma_author_count_zero(s: Seq<PrRecord>, name: Seq<char>)
    requires
        forall|m: int| 0 <= m < s.len() ==> !author_matches(#[trigger] s[m], name),
    ensures
        author_count(s, name) == 0,
    decreases s.len(),
{
    if s.len() != 0 {
        assert(s.last() == s[s.len() - 1]);
        assert(forall|m: int| 0 <= m < s.drop_last().len() ==> s.drop_last()[m] == s[m]);
        lemma_author_count_zero(s.drop_last(), name);
    }
}

/// How many records carry both a creation and a closing instant.
pub open spec fn complete_count(s: Seq<PrRecord>) -> nat
    decreases s.len(),
{
    if s.len() == 0 {
        0
    } else {
        complete_count(s.drop_last()) + (if has_both_timestamps(s.last()) {
            1nat
        } else {
            0nat
        })
    }
}

/// The index of the `k`-th record (in order) that carries both timestamps;
/// meaningful only when `0 <= k < complete_count(s)`.
pub open spec fn nth_complete_index(s: Seq<PrRecord>, k: int) -> int
    decreases s.len(),
{
    if s.len() == 0 {
        0
    } else if k < complete_count(s.drop_last()) {
        nth_complete_index(s.drop_last(), k)
    } else {
        s.len() - 1
    }
}

/// Whole hours from `created` to `closed`, both in seconds, truncated toward
/// zero.
pub open spec fn hours_between(created: int, closed: int) -> int {
    let d = closed - created;
    if d >= 0 {
        d / 3600
    } else {
        -((-d) / 3600)
    }
}

proof fn lemma_complete_count_push(s: Seq<PrRecord>, r: PrRecord)
    ensures
        complete_count(s.push(r)) == complete_count(s) + (if has_both_timestamps(r) {
            1int
        } else {
            0int
        }),
        forall|k: int|
            0 <= k < complete_count(s) ==> nth_complete_index(s.push(r), k)
                == #[trigger] nth_complete_index(s, k),
        has_both_timestamps(r) ==> nth_complete_index(s.push(r), complete_count(s) as int)
            == s.len(),
{
    assert(s.push(r).drop_last() =~= s);
    assert(s.push(r).last() == r);
}

pub proof fn lemma_nth_complete_in_range(s: Seq<PrRecord>, k: int)
    requires
        0 <= k < complete_count(s),
    ensures
        0 <= nth_complete_index(s, k) < s.len(),
        has_both_timestamps(s[nth_complete_index(s, k)]),
    decreases s.len(),
{
    if s.len() != 0 {
        if k < complete_count(s.drop_last()) {
            lemma_nth_complete_in_range(s.drop_last(), k);
            assert(s.drop_last()[nth_complete_index(s.drop_last(), k)] == s[nth_complete_index(
                s.drop_last(),
                k,
            )]);
        } else {
            assert(has_both_timestamps(s.last()));
            assert(s.last() == s[s.len() - 1]);
        }
    }
}

/// Whole hours from `created` to `closed`, truncated toward zero, as the
/// standard duration-to-hours conversion yields them.
pub fn duration_hours(created: i64, closed: i64) -> (h: i64)
    requires
        -(i64::MAX as int) <= closed - created <= i64::MAX as int,
    ensures
        h as int == hours_between(created as int, closed as int),
{
    let d = closed - created;
    if d >= 0 {
        let q = (d as u64) / 3600;
        q as i64
    } else {
        let q = ((-d) as u64) / 3600;
        -(q as i64)
    }
}

/// Count, per author, the records that carry that author's identity: one entry
/// per distinct author, created at 1 on first sight and incremented on each
/// further record. Records without an author are skipped. The counts sum to
/// the number of records that carry an author identity.
pub fn count_open_authors(records: &Vec<PrRecord>) -> (r: Vec<AuthorOpenPRs>)
    requires
        records@.len() <= u32::MAX,
    ensures
        author_counts_ok(records@, r@),
{
    let mut acc: Vec<AuthorOpenPRs> = Vec::new();
    let mut i: usize = 0;
    proof {
        assert(records@.subrange(0, 0) =~= Seq::<PrRecord>::empty());
    }
    while i < records.len()
        invariant
            i <= records@.len(),
            records@.len() <= u32::MAX,
            forall|k: int| 0 <= k < acc@.len() ==> (#[trigger] acc@[k]).open as int == author_count(
                records@.subrange(0, i as int),
                acc@[k].name@,
            ),
            forall|k: int| 0 <= k < acc@.len() ==> (#[trigger] acc@[k]).open >= 1,
            forall|k1: int, k2: int| 0 <= k1 < k2 < acc@.len() ==> acc@[k1].name@ != acc@[k2].name@,
            forall|m: int|
                0 <= m < i && has_author(#[trigger] records@[m]) ==> has_entry_for(
                    acc@,
                    author_view(records@[m]),
                ),
            sum_open(acc@) == authored_count(records@.subrange(0, i as int)),
        decreases records@.len() - i,
    {
        let ghost prefix = records@.subrange(0, i as int);
        let rec = &records[i];
        proof {
            assert(records@.subrange(0, i + 1).drop_last() =~= prefix);
            assert(records@.subrange(0, i + 1) =~= prefix.push(records@[i as int]));
        }
        match &rec.author {
            Some(a) => {
                let mut j: usize = 0;
                while j < acc.len() && !acc[j].name.eq(a)
                    invariant
                        j <= acc@.len(),
                        forall|k: int| 0 <= k < j ==> (#[trigger] acc@[k]).name@ != a@,
                    decreases acc@.len() - j,
                {
                    j = j + 1;
                }
                if j < acc.len() {
                    // Seen before: increment that author's count.
                    let ghost old_acc = acc@;
                    let e = acc.remove(j);
                    proof {
                        lemma_author_count_le_len(prefix, e.name@);
                    }
                    let e2 = AuthorOpenPRs { name: e.name, open: e.open + 1 };
                    acc.insert(j, e2);
                    proof {
                        assert(acc@ =~= old_acc.update(j as int, e2));
                        lemma_sum_open_update(old_acc, j as int, e2);
                        lemma_authored_count_push(prefix, records@[i as int]);
                        assert forall|k: int| 0 <= k < acc@.len() implies (#[trigger] acc@[k]).open
                            as int == author_count(prefix.push(records@[i as int]), acc@[k].name@) by {
                            lemma_author_count_push(prefix, records@[i as int], acc@[k].name@);
                            if k != j {
                                assert(acc@[k] == old_acc[k]);
                                assert(old_acc[j as int].name@ == a@);
                                assert(!author_matches(records@[i as int], acc@[k].name@));
                            }
                        }
                        assert forall|m: int|
                            0 <= m < i + 1 && has_author(#[trigger] records@[m]) implies
                            has_entry_for(acc@, author_view(records@[m])) by {
                            if m < i {
                                let k = choose|k: int|
                                    0 <= k < old_acc.len() && old_acc[k].name@ == author_view(
                                        records@[m],
                                    );
                                assert(acc@[k].name@ == old_acc[k].name@);
                            } else {
                                assert(acc@[j as int].name@ == a@);
                            }
                        }
                    }
                } else {
                    // First sight of this author: a fresh entry with count 1.
                    let ghost old_acc = acc@;
                    acc.push(AuthorOpenPRs { name: a.clone(), open: 1 });
                    proof {
                        lemma_sum_open_push(old_acc, acc@.last());
                        lemma_authored_count_push(prefix, records@[i as int]);
                        assert forall|m: int| 0 <= m < prefix.len() implies !author_matches(
                            #[trigger] prefix[m],
                            a@,
                        ) by {
                            if author_matches(prefix[m], a@) {
                                assert(prefix[m] == records@[m]);
                                assert(has_author(records@[m]));
                                assert(author_view(records@[m]) == a@);
                                assert(has_entry_for(old_acc, a@));
                                let k = choose|k: int|
                                    0 <= k < old_acc.len() && old_acc[k].name@ == a@;
                            }
                        }
                        lemma_author_count_zero(prefix, a@);
                        assert forall|k: int| 0 <= k < acc@.len() implies (#[trigger] acc@[k]).open
                            as int == author_count(prefix.push(records@[i as int]), acc@[k].name@) by {
                            lemma_author_count_push(prefix, records@[i as int], acc@[k].name@);
                            if k < old_acc.len() {
                                assert(acc@[k] == old_acc[k]);
                                assert(old_acc[k].name@ != a@);
                                assert(!author_matches(records@[i as int], acc@[k].name@));
                            } else {
                                assert(acc@[k].name@ == a@);
                                assert(author_matches(records@[i as int], a@));
                            }
                        }
                        assert forall|m: int|
                            0 <= m < i + 1 && has_author(#[trigger] records@[m]) implies
                            has_entry_for(acc@, author_view(records@[m])) by {
                            if m < i {
                                let k = choose|k: int|
                                    0 <= k < old_acc.len() && old_acc[k].name@ == author_view(
                                        records@[m],
                                    );
                                assert(acc@[k].name@ == old_acc[k].name@);
                            } else {
                                assert(acc@[acc@.len() - 1].name@ == a@);
                            }
                        }
                    }
                }
            },
            None => {
                proof {
                    lemma_authored_count_push(prefix, records@[i as int]);
                    assert forall|k: int| 0 <= k < acc@.len() implies (#[trigger] acc@[k]).open
                        as int == author_count(prefix.push(records@[i as int]), acc@[k].name@) by {
                        lemma_author_count_push(prefix, records@[i as int], acc@[k].name@);
                        assert(!author_matches(records@[i as int], acc@[k].name@));
                    }
                }
            },
        }
        i = i + 1;
    }
    proof {
        assert(records@.subrange(0, records@.len() as int) =~= records@);
    }
    acc
}

/// The arithmetic bound every record must meet before its lifetime can be
/// computed in machine integers.
pub open spec fn lifetimes_fit(s: Seq<PrRecord>) -> bool {
    forall|m: int|
        0 <= m < s.len() && has_both_timestamps(#[trigger] s[m]) ==> -(i64::MAX as int)
            <= closed_sec(s[m]) - created_sec(s[m]) <= i64::MAX as int
}

/// Entry `k` of `out` describes the `k`-th record of `records` that carries
/// both timestamps: same author, and the record's lifetime in whole hours.
pub open spec fn lifetime_entry_ok(records: Seq<PrRecord>, out: Seq<PRDuration>, k: int) -> bool {
    let j = nth_complete_index(records, k);
    &&& 0 <= j < records.len()
    &&& author_matches(records[j], out[k].name@)
    &&& out[k].duration as int == hours_between(created_sec(records[j]), closed_sec(records[j]))
}

/// `out` is exactly the lifetime list of `records`: one entry, in order, per
/// record that carries both timestamps.
pub open spec fn lifetimes_match(records: Seq<PrRecord>, out: Seq<PRDuration>) -> bool {
    &&& out.len() == complete_count(records)
    &&& forall|k: int| 0 <= k < out.len() ==> #[trigger] lifetime_entry_ok(records, out, k)
}

/// `e` is the lifetime entry of some record of `records` that carries both
/// timestamps: that record's author, and its lifetime in whole hours.
pub open spec fn is_lifetime_of(records: Seq<PrRecord>, e: PRDuration) -> bool {
    exists|m: int|
        0 <= m < records.len() && has_both_timestamps(#[trigger] records[m]) && author_matches(
            records[m],
            e.name@,
        ) && e.duration as int == hours_between(created_sec(records[m]), closed_sec(records[m]))
}

/// Collect, in order, one `{author, hours}` entry per record that carries
/// both timestamps; records missing either timestamp are silently skipped.
/// A record that carries both timestamps but no author identity cannot be
/// skipped: the whole collection fails with `MissingAuthor`, and it fails
/// exactly on the inputs that hold such a record.
pub fn collect_lifetimes(records: &Vec<PrRecord>) -> (res: Result<Vec<PRDuration>, LifetimeError>)
    requires
        lifetimes_fit(records@),
    ensures
        res is Err <==> exists|m: int|
            0 <= m < records@.len() && has_both_timestamps(#[trigger] records@[m]) && !has_author(
                records@[m],
            ),
        res matches Ok(r) ==> lifetimes_match(records@, r@),
{
    let mut acc: Vec<PRDuration> = Vec::new();
    let mut i: usize = 0;
    proof {
        assert(records@.subrange(0, 0) =~= Seq::<PrRecord>::empty());
    }
    while i < records.len()
        invariant
            i <= records@.len(),
            lifetimes_fit(records@),
            lifetimes_match(records@.subrange(0, i as int), acc@),
            forall|k: int|
                0 <= k < acc@.len() ==> nth_complete_index(records@.subrange(0, i as int), k) < i,
            forall|m: int|
                0 <= m < i && has_both_timestamps(#[trigger] records@[m]) ==> has_author(
                    records@[m],
                ),
        decreases records@.len() - i,
    {
        let ghost prefix = records@.subrange(0, i as int);
        let ghost longer = records@.subrange(0, i + 1);
        proof {
            assert(longer.drop_last() =~= prefix);
            assert(longer =~= prefix.push(records@[i as int]));
            lemma_complete_count_push(prefix, records@[i as int]);
        }
        let rec = &records[i];
        if rec.created_at.is_some() && rec.closed_at.is_some() {
            match &rec.author {
                Some(a) => {
                    let created = rec.created_at.unwrap();
                    let closed = rec.closed_at.unwrap();
                    let hours = duration_hours(created, closed);
                    let ghost old_acc = acc@;
                    acc.push(PRDuration { name: a.clone(), duration: hours });
                    proof {
                        assert forall|k: int| 0 <= k < acc@.len() implies #[trigger]
                            lifetime_entry_ok(longer, acc@, k) by {
                            if k < acc@.len() - 1 {
                                assert(lifetime_entry_ok(prefix, old_acc, k));
                                assert(acc@[k] == old_acc[k]);
                                lemma_nth_complete_in_range(prefix, k);
                                assert(nth_complete_index(longer, k) == nth_complete_index(
                                    prefix,
                                    k,
                                ));
                                assert(prefix[nth_complete_index(prefix, k)] == records@[
                                    nth_complete_index(prefix, k)]);
                            } else {
                                assert(acc@[k] == acc@.last());
                                assert(nth_complete_index(longer, k) == i as int);
                                assert(longer[i as int] == records@[i as int]);
                            }
                        }
                        assert(lifetimes_match(longer, acc@));
                        assert forall|k: int| 0 <= k < acc@.len() implies nth_complete_index(
                            longer,
                            k,
                        ) < i + 1 by {
                            lemma_nth_complete_in_range(longer, k);
                        }
                    }
                },
                None => {
                    return Err(LifetimeError::MissingAuthor);
                },
            }
        } else {
            proof {
                assert forall|k: int| 0 <= k < acc@.len() implies #[trigger] lifetime_entry_ok(
                    longer,
                    acc@,
                    k,
                ) by {
                    assert(lifetime_entry_ok(prefix, acc@, k));
                    lemma_nth_complete_in_range(prefix, k);
                    assert(nth_complete_index(longer, k) == nth_complete_index(prefix, k));
                    assert(prefix[nth_complete_index(prefix, k)] == records@[nth_complete_index(
                        prefix,
                        k,
                    )]);
                }
                assert(lifetimes_match(longer, acc@));
                assert forall|k: int| 0 <= k < acc@.len() implies nth_complete_index(longer, k)
                    < i + 1 by {
                    lemma_nth_complete_in_range(longer, k);
                }
            }
        }
        i = i + 1;
        proof {
            assert(records@.subrange(0, i as int) =~= longer);
        }
    }
    proof {
        assert(records@.subrange(0, records@.len() as int) =~= records@);
    }
    Ok(acc)
}

} // verus!
