use vstd::prelude::*;

verus! {

use vstd::multiset::Multiset;
use vstd::seq_lib::group_to_multiset_ensures;
use vstd::seq_lib::lemma_seq_union_to_multiset_commutative;

/// How many entries a ranking keeps.
pub const RANK_SIZE: usize = 10;

/// An entry that a ranking can order: it carries a single numeric metric.
pub trait Ranked: Sized {
    /// The metric as a mathematical integer.
    spec fn metric(&self) -> int;

    /// The metric as a machine integer.
    fn metric_val(&self) -> (m: i64)
        ensures
            m as int == self.metric(),
    ;
}

/// Non-increasing by metric.
pub open spec fn sorted_desc<T: Ranked>(s: Seq<T>) -> bool {
    forall|i: int, j: int| 0 <= i <= j < s.len() ==> s[i].metric() >= s[j].metric()
}

/// Insert `x` in front of the first element whose metric does not exceed it.
/// Equal metrics keep the inserted element first, so inserting each element of
/// a sequence in turn is a stable sort.
pub open spec fn insert_desc<T: Ranked>(x: T, s: Seq<T>) -> Seq<T>
    decreases s.len(),
{
    if s.len() == 0 {
        seq![x]
    } else if x.metric() >= s[0].metric() {
        seq![x] + s
    } else {
        seq![s[0]] + insert_desc(x, s.drop_first())
    }
}

/// Stable insertion sort, non-increasing by metric.
pub open spec fn sort_desc<T: Ranked>(s: Seq<T>) -> Seq<T>
    decreases s.len(),
{
    if s.len() == 0 {
        Seq::empty()
    } else {
        insert_desc(s[0], sort_desc(s.drop_first()))
    }
}

/// What ranking a sequence yields: sort by metric non-increasing, then keep
/// the first `RANK_SIZE` entries (all of them when there are fewer).
pub open spec fn rank_of<T: Ranked>(s: Seq<T>) -> Seq<T> {
    sort_desc(s).take(
        if s.len() <= RANK_SIZE { s.len() as int } else { RANK_SIZE as int },
    )
}

proof fn lemma_insert_desc_len<T: Ranked>(x: T, s: Seq<T>)
    ensures
        insert_desc(x, s).len() == s.len() + 1,
    decreases s.len(),
{
    if s.len() != 0 && !(x.metric() >= s[0].metric()) {
        lemma_insert_desc_len(x, s.drop_first());
    }
}

proof fn lemma_sort_desc_len<T: Ranked>(s: Seq<T>)
    ensures
        sort_desc(s).len() == s.len(),
    decreases s.len(),
{
    if s.len() != 0 {
        lemma_sort_desc_len(s.drop_first());
        lemma_insert_desc_len(s[0], sort_desc(s.drop_first()));
    }
}

proof fn lemma_insert_desc_elems<T: Ranked>(x: T, s: Seq<T>, e: T)
    requires
        insert_desc(x, s).contains(e),
    ensures
        e == x || s.contains(e),
    decreases s.len(),
{
    if s.len() == 0 {
        assert(insert_desc(x, s) == seq![x]);
    } else if x.metric() >= s[0].metric() {
        let t = seq![x] + s;
        let i = choose|i: int| 0 <= i < t.len() && t[i] == e;
        if i > 0 {
            assert(s[i - 1] == e);
        }
    } else {
        let t = seq![s[0]] + insert_desc(x, s.drop_first());
        let i = choose|i: int| 0 <= i < t.len() && t[i] == e;
        if i == 0 {
            assert(s[0] == e);
        } else {
            assert(insert_desc(x, s.drop_first()).contains(e));
            lemma_insert_desc_elems(x, s.drop_first(), e);
            if s.drop_first().contains(e) {
                let j = choose|j: int| 0 <= j < s.drop_first().len() && s.drop_first()[j] == e;
                assert(s[j + 1] == e);
            }
        }
    }
}

proof fn lemma_insert_desc_sorted<T: Ranked>(x: T, s: Seq<T>)
    requires
        sorted_desc(s),
    ensures
        sorted_desc(insert_desc(x, s)),
    decreases s.len(),
{
    if s.len() == 0 {
    } else if x.metric() >= s[0].metric() {
        let t = seq![x] + s;
        assert forall|i: int, j: int| 0 <= i <= j < t.len() implies t[i].metric() >= t[j].metric() by {
            if i > 0 {
                assert(t[i] == s[i - 1] && t[j] == s[j - 1]);
            } else if j > 0 {
                assert(t[j] == s[j - 1]);
                assert(s[0].metric() >= s[j - 1].metric());
            }
        }
    } else {
        let rest = s.drop_first();
        assert(sorted_desc(rest)) by {
            assert forall|i: int, j: int| 0 <= i <= j < rest.len() implies rest[i].metric()
                >= rest[j].metric() by {
                assert(rest[i] == s[i + 1] && rest[j] == s[j + 1]);
            }
        }
        lemma_insert_desc_sorted(x, rest);
        let u = insert_desc(x, rest);
        let t = seq![s[0]] + u;
        assert forall|i: int, j: int| 0 <= i <= j < t.len() implies t[i].metric() >= t[j].metric() by {
            if i > 0 {
                assert(t[i] == u[i - 1] && t[j] == u[j - 1]);
            } else if j > 0 {
                assert(t[j] == u[j - 1]);
                assert(u.contains(u[j - 1]));
                lemma_insert_desc_elems(x, rest, u[j - 1]);
                if rest.contains(u[j - 1]) {
                    let k = choose|k: int|
                        0 <= k < rest.len() && rest[k] == u[j - 1];
                    assert(s[0].metric() >= s[k + 1].metric());
                }
            }
        }
    }
}

pub proof fn lemma_sort_desc_sorted<T: Ranked>(s: Seq<T>)
    ensures
        sorted_desc(sort_desc(s)),
    decreases s.len(),
{
    if s.len() != 0 {
        lemma_sort_desc_sorted(s.drop_first());
        lemma_insert_desc_sorted(s[0], sort_desc(s.drop_first()));
    }
}

proof fn lemma_insert_desc_multiset<T: Ranked>(x: T, s: Seq<T>)
    ensures
        insert_desc(x, s).to_multiset() == s.to_multiset().insert(x),
    decreases s.len(),
{
    broadcast use group_to_multiset_ensures;
    broadcast use vstd::multiset::group_multiset_axioms;

    if s.len() == 0 {
        assert(seq![x] =~= Seq::<T>::empty().push(x));
        assert(s.to_multiset() =~= Multiset::<T>::empty());
        assert(Seq::<T>::empty().to_multiset() =~= Multiset::<T>::empty());
        assert(insert_desc(x, s).to_multiset() =~= s.to_multiset().insert(x));
    } else if x.metric() >= s[0].metric() {
        let t = seq![x] + s;
        lemma_seq_union_to_multiset_commutative(seq![x], s);
        assert(s + seq![x] =~= s.push(x));
        assert(t.to_multiset() =~= s.to_multiset().insert(x));
    } else {
        let rest = s.drop_first();
        lemma_insert_desc_multiset(x, rest);
        let u = insert_desc(x, rest);
        lemma_seq_union_to_multiset_commutative(seq![s[0]], u);
        assert(u + seq![s[0]] =~= u.push(s[0]));
        assert((seq![s[0]] + u).to_multiset() =~= u.to_multiset().insert(s[0]));
        lemma_seq_union_to_multiset_commutative(seq![s[0]], rest);
        assert(rest + seq![s[0]] =~= rest.push(s[0]));
        assert((seq![s[0]] + rest).to_multiset() =~= rest.to_multiset().insert(s[0]));
        assert(seq![s[0]] + rest =~= s);
        assert(s.to_multiset() =~= rest.to_multiset().insert(s[0]));
        assert(rest.to_multiset().insert(x).insert(s[0]) =~= rest.to_multiset().insert(
            s[0],
        ).insert(x));
        assert(insert_desc(x, s).to_multiset() =~= s.to_multiset().insert(x));
    }
}

pub proof fn lemma_sort_desc_multiset<T: Ranked>(s: Seq<T>)
    ensures
        sort_desc(s).to_multiset() == s.to_multiset(),
    decreases s.len(),
{
    broadcast use group_to_multiset_ensures;
    broadcast use vstd::multiset::group_multiset_axioms;

    if s.len() != 0 {
        let rest = s.drop_first();
        lemma_sort_desc_multiset(rest);
        lemma_insert_desc_multiset(s[0], sort_desc(rest));
        lemma_seq_union_to_multiset_commutative(seq![s[0]], rest);
        assert(rest + seq![s[0]] =~= rest.push(s[0]));
        assert((seq![s[0]] + rest).to_multiset() =~= rest.to_multiset().insert(s[0]));
        assert(seq![s[0]] + rest =~= s);
        assert(sort_desc(s).to_multiset() =~= s.to_multiset());
    }
}

proof fn lemma_insert_desc_at<T: Ranked>(x: T, s: Seq<T>, j: int)
    requires
        0 <= j <= s.len(),
        forall|k: int| 0 <= k < j ==> s[k].metric() > x.metric(),
        j == s.len() || x.metric() >= s[j].metric(),
    ensures
        insert_desc(x, s) == s.insert(j, x),
    decreases s.len(),
{
    if s.len() == 0 {
        assert(insert_desc(x, s) =~= s.insert(0, x));
    } else if j == 0 {
        assert(insert_desc(x, s) == seq![x] + s);
        assert(seq![x] + s =~= s.insert(0, x));
    } else {
        let rest = s.drop_first();
        assert(forall|k: int| 0 <= k < j - 1 ==> #[trigger] rest[k].metric() > x.metric()) by {
            assert(forall|k: int| 0 <= k < j - 1 ==> rest[k] == s[k + 1]);
        }
        lemma_insert_desc_at(x, rest, j - 1);
        assert(insert_desc(x, s) == seq![s[0]] + insert_desc(x, rest));
        assert(seq![s[0]] + rest.insert(j - 1, x) =~= s.insert(j, x));
    }
}

proof fn lemma_sorted_desc_take<T: Ranked>(s: Seq<T>, n: int)
    requires
        sorted_desc(s),
        0 <= n <= s.len(),
    ensures
        sorted_desc(s.take(n)),
{
    assert forall|i: int, j: int| 0 <= i <= j < s.take(n).len() implies s.take(n)[i].metric()
        >= s.take(n)[j].metric() by {
        assert(s.take(n)[i] == s[i] && s.take(n)[j] == s[j]);
    }
}

/// A sequence already sorted non-increasing is untouched by the sort: every
/// element, ties included, keeps its place.
pub proof fn lemma_sort_desc_fixpoint<T: Ranked>(s: Seq<T>)
    requires
        sorted_desc(s),
    ensures
        sort_desc(s) == s,
    decreases s.len(),
{
    if s.len() == 0 {
        assert(sort_desc(s) =~= s);
    } else {
        let rest = s.drop_first();
        assert(sorted_desc(rest)) by {
            assert forall|i: int, j: int| 0 <= i <= j < rest.len() implies rest[i].metric()
                >= rest[j].metric() by {
                assert(rest[i] == s[i + 1] && rest[j] == s[j + 1]);
            }
        }
        lemma_sort_desc_fixpoint(rest);
        if rest.len() == 0 {
            assert(insert_desc(s[0], rest) =~= s);
        } else {
            assert(s[0].metric() >= rest[0].metric()) by {
                assert(rest[0] == s[1]);
            }
            assert(seq![s[0]] + rest =~= s);
        }
    }
}

/// The ranking keeps `RANK_SIZE` entries (all of them when there are fewer),
/// orders them by metric non-increasing, and every kept entry is an entry of
/// the input, metric included.
pub proof fn lemma_rank_properties<T: Ranked>(s: Seq<T>)
    ensures
        rank_of(s).len() == if s.len() <= RANK_SIZE {
            s.len() as int
        } else {
            RANK_SIZE as int
        },
        sorted_desc(rank_of(s)),
        forall|i: int| 0 <= i < rank_of(s).len() ==> s.contains(#[trigger] rank_of(s)[i]),
{
    broadcast use group_to_multiset_ensures;

    lemma_sort_desc_len(s);
    lemma_sort_desc_sorted(s);
    lemma_sort_desc_multiset(s);
    let t = sort_desc(s);
    let n = if s.len() <= RANK_SIZE {
        s.len() as int
    } else {
        RANK_SIZE as int
    };
    lemma_sorted_desc_take(t, n);
    assert forall|i: int| 0 <= i < rank_of(s).len() implies s.contains(#[trigger] rank_of(s)[i]) by {
        assert(rank_of(s)[i] == t[i]);
        assert(t.contains(t[i]));
        assert(t.to_multiset().count(t[i]) > 0);
        assert(s.to_multiset().count(t[i]) > 0);
    }
}

/// Ranking is idempotent: ranking an already-ranked list returns it unchanged,
/// ties included.
pub proof fn lemma_rank_idempotent<T: Ranked>(s: Seq<T>)
    ensures
        rank_of(rank_of(s)) == rank_of(s),
{
    lemma_sort_desc_len(s);
    lemma_sort_desc_sorted(s);
    let n = if s.len() <= RANK_SIZE {
        s.len() as int
    } else {
        RANK_SIZE as int
    };
    lemma_sorted_desc_take(sort_desc(s), n);
    let r = rank_of(s);
    assert(sorted_desc(r));
    assert(r.len() <= RANK_SIZE);
    lemma_sort_desc_fixpoint(r);
    assert(sort_desc(r).take(r.len() as int) =~= r);
}

fn insert_ranked<T: Ranked>(x: T, v: &mut Vec<T>)
    ensures
        final(v)@ == insert_desc(x, old(v)@),
{
    let xm = x.metric_val();
    let mut j: usize = 0;
    while j < v.len() && v[j].metric_val() > xm
        invariant
            j <= v@.len(),
            v@ == old(v)@,
            xm as int == x.metric(),
            forall|k: int| 0 <= k < j ==> v@[k].metric() > x.metric(),
        decreases v@.len() - j,
    {
        j = j + 1;
    }
    proof {
        lemma_insert_desc_at(x, v@, j as int);
    }
    v.insert(j, x);
}

/// Sort the entries by metric non-increasing (a stable sort: entries with
/// equal metrics keep their relative order) and keep the first `RANK_SIZE`.
pub fn rank_top10<T: Ranked>(entries: Vec<T>) -> (r: Vec<T>)
    ensures
        r@ == rank_of(entries@),
        sorted_desc(r@),
        r@.len() == if entries@.len() <= RANK_SIZE {
            entries@.len() as int
        } else {
            RANK_SIZE as int
        },
{
    let ghost orig = entries@;
    let mut v = entries;
    let mut r: Vec<T> = Vec::new();
    proof {
        assert(orig.skip(orig.len() as int) =~= Seq::<T>::empty());
    }
    while v.len() > 0
        invariant
            v@.len() <= orig.len(),
            v@ == orig.subrange(0, v@.len() as int),
            r@ == sort_desc(orig.skip(v@.len() as int)),
        decreases v.len(),
    {
        let ghost n = v@.len() as int;
        let x = v.pop().unwrap();
        proof {
            assert(x == orig[n - 1]);
            let suf = orig.skip(n - 1);
            assert(suf[0] == orig[n - 1]);
            assert(suf.drop_first() =~= orig.skip(n));
        }
        insert_ranked(x, &mut r);
        proof {
            assert(r@ == insert_desc(orig[n - 1], sort_desc(orig.skip(n))));
            assert(r@ == sort_desc(orig.skip(n - 1)));
            assert(v@ =~= orig.subrange(0, v@.len() as int));
        }
    }
    proof {
        assert(orig.skip(0) =~= orig);
        lemma_sort_desc_len(orig);
        lemma_sort_desc_sorted(orig);
    }
    if r.len() > RANK_SIZE {
        r.truncate(RANK_SIZE);
        proof {
            lemma_sorted_desc_take(sort_desc(orig), RANK_SIZE as int);
        }
    } else {
        proof {
            assert(sort_desc(orig).take(orig.len() as int) =~= sort_desc(orig));
            lemma_sorted_desc_take(sort_desc(orig), orig.len() as int);
        }
    }
    r
}

} // verus!
