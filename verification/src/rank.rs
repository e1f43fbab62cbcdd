//! The ranker. A completed tally becomes a leaderboard: zero-count entries
//! are dropped, the rest are sorted by count descending with a stable sort
//! (ties keep the tally's insertion order), and each row carries a 1-based
//! position.

use crate::tally::Tally;
use vstd::prelude::*;
use vstd::seq_lib::lemma_multiset_commutative;

verus! {

/// One row of the leaderboard: issue id, its count, its 1-based position.
pub struct RankedEntry {
    pub id: u64,
    pub count: u64,
    pub position: u64,
}

/// The entries with a positive count, in tally order.
pub open spec fn nonzero(s: Seq<(u64, u64)>) -> Seq<(u64, u64)>
    decreases s.len(),
{
    if s.len() == 0 {
        Seq::empty()
    } else if s[0].1 > 0 {
        seq![s[0]] + nonzero(s.drop_first())
    } else {
        nonzero(s.drop_first())
    }
}

/// Every kept entry has a positive count.
pub proof fn lemma_nonzero_positive(s: Seq<(u64, u64)>)
    ensures
        forall|i: int| 0 <= i < nonzero(s).len() ==> nonzero(s)[i].1 > 0,
    decreases s.len(),
{
    if s.len() > 0 {
        lemma_nonzero_positive(s.drop_first());
        assert forall|i: int| 0 <= i < nonzero(s).len() implies nonzero(s)[i].1 > 0 by {
            if s[0].1 > 0 && i > 0 {
                assert(nonzero(s)[i] == nonzero(s.drop_first())[i - 1]);
            }
        }
    }
}

/// `x` placed into `r` behind every entry whose count is at least `x`'s.
pub open spec fn place(r: Seq<(u64, u64)>, x: (u64, u64)) -> Seq<(u64, u64)>
    decreases r.len(),
{
    if r.len() == 0 {
        seq![x]
    } else if r[0].1 >= x.1 {
        seq![r[0]] + place(r.drop_first(), x)
    } else {
        seq![x] + r
    }
}

/// Stable sort by count descending: entries are placed one after another,
/// each behind the earlier entries whose counts tie or beat its own.
pub open spec fn sort_by_count(s: Seq<(u64, u64)>) -> Seq<(u64, u64)>
    decreases s.len(),
{
    if s.len() == 0 {
        Seq::empty()
    } else {
        place(sort_by_count(s.drop_last()), s.last())
    }
}

/// Counts never increase along the sequence.
pub open spec fn sorted_desc(s: Seq<(u64, u64)>) -> bool {
    forall|i: int, j: int| 0 <= i <= j < s.len() ==> s[i].1 >= s[j].1
}

/// Placing into a sorted sequence keeps it sorted and adds one entry.
proof fn lemma_place_ensures(r: Seq<(u64, u64)>, x: (u64, u64))
    requires
        sorted_desc(r),
    ensures
        sorted_desc(place(r, x)),
        place(r, x).to_multiset() == r.to_multiset().insert(x),
    decreases r.len(),
{
    broadcast use vstd::seq_lib::group_to_multiset_ensures;

    if r.len() == 0 {
        assert(place(r, x) =~= r.push(x));
    } else if r[0].1 >= x.1 {
        assert forall|i: int, j: int|
            0 <= i <= j < r.drop_first().len() implies r.drop_first()[i].1
            >= r.drop_first()[j].1 by {
            assert(r.drop_first()[i] == r[i + 1] && r.drop_first()[j] == r[j + 1]);
        }
        lemma_place_ensures(r.drop_first(), x);
        let rest = place(r.drop_first(), x);
        lemma_multiset_commutative(seq![r[0]], rest);
        assert(r =~= seq![r[0]] + r.drop_first());
        lemma_multiset_commutative(seq![r[0]], r.drop_first());
        assert(place(r, x).to_multiset() =~= r.to_multiset().insert(x));
        assert forall|i: int, j: int|
            0 <= i <= j < place(r, x).len() implies place(r, x)[i].1 >= place(r, x)[j].1 by {
            if 0 < i {
                assert(place(r, x)[i] == rest[i - 1] && place(r, x)[j] == rest[j - 1]);
            } else if 0 < j {
                let e = rest[j - 1];
                assert(rest.to_multiset().count(e) > 0);
                if e == x {
                    assert(r[0].1 >= x.1);
                } else {
                    assert(r.drop_first().to_multiset().count(e) > 0);
                    assert(r.drop_first().contains(e));
                    let m = choose|m: int|
                        0 <= m < r.drop_first().len() && r.drop_first()[m] == e;
                    assert(r[m + 1] == e);
                    assert(r[0].1 >= r[m + 1].1);
                }
            }
        }
    } else {
        assert(r.push(x) =~= r + seq![x]);
        lemma_multiset_commutative(seq![x], r);
        lemma_multiset_commutative(r, seq![x]);
        assert(place(r, x).to_multiset() =~= r.to_multiset().insert(x));
        assert forall|i: int, j: int|
            0 <= i <= j < place(r, x).len() implies place(r, x)[i].1 >= place(r, x)[j].1 by {
            if 0 < i {
                assert(place(r, x)[i] == r[i - 1] && place(r, x)[j] == r[j - 1]);
            } else if 0 < j {
                assert(place(r, x)[j] == r[j - 1]);
                assert(r[0].1 >= r[j - 1].1 || j - 1 == 0);
                assert(x.1 > r[0].1);
            }
        }
    }
}

/// What the stable sort promises: the result is ordered by count descending
/// and holds exactly the entries it was given.
pub proof fn lemma_sort_by_count_ensures(s: Seq<(u64, u64)>)
    ensures
        sorted_desc(sort_by_count(s)),
        sort_by_count(s).to_multiset() == s.to_multiset(),
    decreases s.len(),
{
    broadcast use vstd::seq_lib::group_to_multiset_ensures;

    if s.len() > 0 {
        lemma_sort_by_count_ensures(s.drop_last());
        lemma_place_ensures(sort_by_count(s.drop_last()), s.last());
        assert(s.drop_last().push(s.last()) =~= s);
    }
}

/// Where `place` puts `x`: at the first index whose count is below `x`'s.
proof fn lemma_place_at(r: Seq<(u64, u64)>, x: (u64, u64), j: int)
    requires
        0 <= j <= r.len(),
        forall|k: int| 0 <= k < j ==> r[k].1 >= x.1,
        j < r.len() ==> r[j].1 < x.1,
    ensures
        place(r, x) == r.take(j) + seq![x] + r.skip(j),
    decreases j,
{
    if j == 0 {
        assert(place(r, x) =~= r.take(0) + seq![x] + r.skip(0));
    } else {
        assert(r[0].1 >= x.1);
        assert forall|k: int| 0 <= k < j - 1 implies r.drop_first()[k].1 >= x.1 by {
            assert(r.drop_first()[k] == r[k + 1]);
        }
        assert(j - 1 < r.drop_first().len() ==> r.drop_first()[j - 1] == r[j]);
        lemma_place_at(r.drop_first(), x, j - 1);
        assert(seq![r[0]] + (r.drop_first().take(j - 1) + seq![x] + r.drop_first().skip(j - 1))
            =~= r.take(j) + seq![x] + r.skip(j));
    }
}

/// The entries of `s` with a positive count, in order.
fn nonzero_entries(s: &Vec<(u64, u64)>) -> (r: Vec<(u64, u64)>)
    ensures
        r@ == nonzero(s@),
{
    let mut r: Vec<(u64, u64)> = Vec::new();
    let mut i: usize = 0;
    proof {
        assert(s@.skip(0) =~= s@);
    }
    while i < s.len()
        invariant
            i <= s@.len(),
            nonzero(s@) == r@ + nonzero(s@.skip(i as int)),
        decreases s@.len() - i,
    {
        proof {
            assert(s@.skip(i as int).drop_first() =~= s@.skip(i as int + 1));
            assert(s@.skip(i as int)[0] == s@[i as int]);
        }
        let e = s[i];
        if e.1 > 0 {
            proof {
                assert((r@ + seq![e]) + nonzero(s@.skip(i as int + 1)) =~= r@ + (seq![e] + nonzero(
                    s@.skip(i as int + 1),
                )));
            }
            r.push(e);
        }
        i = i + 1;
    }
    proof {
        assert(nonzero(s@.skip(i as int)) =~= Seq::<(u64, u64)>::empty());
        assert(r@ + nonzero(s@.skip(i as int)) =~= r@);
    }
    r
}

/// Inserts `x` behind every entry whose count ties or beats it.
fn place_entry(sorted: &mut Vec<(u64, u64)>, x: (u64, u64))
    ensures
        final(sorted)@ == place(old(sorted)@, x),
{
    let mut j: usize = 0;
    while j < sorted.len() && sorted[j].1 >= x.1
        invariant
            j <= sorted@.len(),
            sorted@ == old(sorted)@,
            forall|k: int| 0 <= k < j ==> sorted@[k].1 >= x.1,
        decreases sorted@.len() - j,
    {
        j = j + 1;
    }
    proof {
        lemma_place_at(sorted@, x, j as int);
    }
    sorted.insert(j, x);
    proof {
        assert(sorted@ =~= old(sorted)@.take(j as int) + seq![x] + old(sorted)@.skip(j as int));
    }
}

/// Builds the leaderboard of a completed tally: zero counts dropped, the
/// rest sorted by count descending — stable, so ties keep the tally's
/// insertion order — each row holding its 1-based position.
pub fn rank(tally: &Tally) -> (r: Vec<RankedEntry>)
    ensures
        r@.len() == sort_by_count(nonzero(tally.entries@)).len(),
        forall|i: int|
            0 <= i < r@.len() ==> (#[trigger] r@[i].id, r@[i].count) == sort_by_count(
                nonzero(tally.entries@),
            )[i] && r@[i].position == i + 1,
{
    let nz = nonzero_entries(&tally.entries);
    let mut sorted: Vec<(u64, u64)> = Vec::new();
    let mut i: usize = 0;
    proof {
        assert(nz@.take(0) =~= Seq::<(u64, u64)>::empty());
    }
    while i < nz.len()
        invariant
            i <= nz@.len(),
            nz@ == nonzero(tally.entries@),
            sorted@ == sort_by_count(nz@.take(i as int)),
        decreases nz@.len() - i,
    {
        let e = nz[i];
        proof {
            assert(nz@.take(i as int + 1).drop_last() =~= nz@.take(i as int));
            assert(nz@.take(i as int + 1).last() == nz@[i as int]);
        }
        place_entry(&mut sorted, e);
        i = i + 1;
    }
    proof {
        assert(nz@.take(nz@.len() as int) =~= nz@);
    }
    let mut r: Vec<RankedEntry> = Vec::new();
    let mut k: usize = 0;
    while k < sorted.len()
        invariant
            k <= sorted@.len(),
            sorted@ == sort_by_count(nonzero(tally.entries@)),
            r@.len() == k,
            forall|i: int|
                0 <= i < k ==> (#[trigger] r@[i].id, r@[i].count) == sorted@[i] && r@[i].position
                    == i + 1,
        decreases sorted@.len() - k,
    {
        let e = sorted[k];
        r.push(RankedEntry { id: e.0, count: e.1, position: (k + 1) as u64 });
        k = k + 1;
    }
    r
}

} // verus!
