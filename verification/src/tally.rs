//! The reaction tally. Per-issue counts of one target label are folded into
//! a single mapping. Each contribution is an "insert 0 then add", so repeated
//! contributions for one id accumulate, and merging two partial tallies is
//! associative and commutative: concurrent fetches can land in any order.

use vstd::prelude::*;

verus! {

/// The author of a reaction.
pub struct Actor {
    pub handle: String,
}

/// One reaction on an issue: a short label (such as `+1`) and its author.
pub struct Reaction {
    pub kind: String,
    pub actor: Actor,
}

/// Number of reactions in `rs` whose label is exactly `label`.
pub open spec fn count_label(rs: Seq<Reaction>, label: Seq<char>) -> int
    decreases rs.len(),
{
    if rs.len() == 0 {
        0
    } else {
        (if rs[0].kind@ == label {
            1int
        } else {
            0int
        }) + count_label(rs.drop_first(), label)
    }
}

/// A label count is between zero and the number of reactions.
pub proof fn lemma_count_label_bounds(rs: Seq<Reaction>, label: Seq<char>)
    ensures
        0 <= count_label(rs, label) <= rs.len(),
    decreases rs.len(),
{
    if rs.len() > 0 {
        lemma_count_label_bounds(rs.drop_first(), label);
    }
}

/// The label counted by default.
pub open spec fn thumbs_up() -> Seq<char> {
    "+1"@
}

/// The default target label, `+1`.
pub fn thumbs_up_label() -> (s: String)
    ensures
        s@ == thumbs_up(),
{
    "+1".to_owned()
}

/// Counts the reactions in `rs` whose label equals `label`.
pub fn count_matching(rs: &Vec<Reaction>, label: &String) -> (n: u64)
    ensures
        n as int == count_label(rs@, label@),
{
    let mut n: u64 = 0;
    let mut i: usize = 0;
    proof {
        assert(rs@.skip(0) =~= rs@);
    }
    while i < rs.len()
        invariant
            i <= rs@.len(),
            n as int <= i as int,
            count_label(rs@, label@) == n as int + count_label(rs@.skip(i as int), label@),
        decreases rs@.len() - i,
    {
        proof {
            assert(rs@.skip(i as int).drop_first() =~= rs@.skip(i as int + 1));
            assert(rs@.skip(i as int)[0] == rs@[i as int]);
        }
        if rs[i].kind == *label {
            n = n + 1;
        }
        i = i + 1;
    }
    n
}

/// Sum capped at `u64::MAX`: the tally never wraps.
pub open spec fn sat_add(a: u64, b: u64) -> u64 {
    if a + b > u64::MAX {
        u64::MAX
    } else {
        (a + b) as u64
    }
}

/// Capped addition is commutative.
pub proof fn lemma_sat_add_commutative(a: u64, b: u64)
    ensures
        sat_add(a, b) == sat_add(b, a),
{
}

/// Capped addition is associative.
pub proof fn lemma_sat_add_associative(a: u64, b: u64, c: u64)
    ensures
        sat_add(sat_add(a, b), c) == sat_add(a, sat_add(b, c)),
{
}

/// The count for `id` in `m`, zero when absent.
pub open spec fn get_count(m: Map<u64, u64>, id: u64) -> u64 {
    if m.dom().contains(id) {
        m[id]
    } else {
        0
    }
}

/// One contribution folded into a tally map: insert zero, then add `c`.
pub open spec fn add_spec(m: Map<u64, u64>, id: u64, c: u64) -> Map<u64, u64> {
    m.insert(id, sat_add(get_count(m, id), c))
}

/// Two tally maps merged pointwise.
pub open spec fn merge_spec(a: Map<u64, u64>, b: Map<u64, u64>) -> Map<u64, u64> {
    Map::new(
        |k: u64| a.dom().contains(k) || b.dom().contains(k),
        |k: u64| sat_add(get_count(a, k), get_count(b, k)),
    )
}

/// The count a merged tally gives any id is the capped sum of the counts the
/// two parts give it.
pub proof fn lemma_get_count_merge(a: Map<u64, u64>, b: Map<u64, u64>, k: u64)
    ensures
        get_count(merge_spec(a, b), k) == sat_add(get_count(a, k), get_count(b, k)),
{
    if !(a.dom().contains(k) || b.dom().contains(k)) {
        assert(get_count(a, k) == 0 && get_count(b, k) == 0);
    }
}

/// Merging two partial tallies is commutative.
pub proof fn lemma_merge_commutative(a: Map<u64, u64>, b: Map<u64, u64>)
    ensures
        merge_spec(a, b) == merge_spec(b, a),
{
    assert(merge_spec(a, b) =~= merge_spec(b, a));
}

/// Merging partial tallies is associative.
pub proof fn lemma_merge_associative(a: Map<u64, u64>, b: Map<u64, u64>, c: Map<u64, u64>)
    ensures
        merge_spec(merge_spec(a, b), c) == merge_spec(a, merge_spec(b, c)),
{
    assert forall|k: u64|
        #[trigger] merge_spec(merge_spec(a, b), c).dom().contains(k) == merge_spec(
            a,
            merge_spec(b, c),
        ).dom().contains(k) by {}
    assert forall|k: u64| merge_spec(merge_spec(a, b), c).dom().contains(k) implies #[trigger] merge_spec(
        merge_spec(a, b),
        c,
    )[k] == merge_spec(a, merge_spec(b, c))[k] by {
        lemma_get_count_merge(a, b, k);
        lemma_get_count_merge(b, c, k);
        lemma_sat_add_associative(get_count(a, k), get_count(b, k), get_count(c, k));
    }
    assert(merge_spec(merge_spec(a, b), c) =~= merge_spec(a, merge_spec(b, c)));
}

/// Two contributions land the same whichever comes first.
pub proof fn lemma_add_commutes(m: Map<u64, u64>, id1: u64, c1: u64, id2: u64, c2: u64)
    ensures
        add_spec(add_spec(m, id1, c1), id2, c2) == add_spec(add_spec(m, id2, c2), id1, c1),
{
    if id1 == id2 {
        let g = get_count(m, id1);
        lemma_sat_add_associative(g, c1, c2);
        lemma_sat_add_associative(g, c2, c1);
        lemma_sat_add_commutative(c1, c2);
        assert(add_spec(add_spec(m, id1, c1), id2, c2) =~= add_spec(add_spec(m, id2, c2), id1, c1));
    } else {
        assert(add_spec(add_spec(m, id1, c1), id2, c2) =~= add_spec(add_spec(m, id2, c2), id1, c1));
    }
}

/// The map an entry list denotes: later entries override earlier ones
/// (with unique ids nothing is overridden).
pub open spec fn entries_map(s: Seq<(u64, u64)>) -> Map<u64, u64>
    decreases s.len(),
{
    if s.len() == 0 {
        Map::empty()
    } else {
        entries_map(s.drop_last()).insert(s.last().0, s.last().1)
    }
}

/// With unique ids, the denoted map holds exactly the listed pairs.
pub proof fn lemma_entries_map_props(s: Seq<(u64, u64)>)
    requires
        forall|i: int, j: int| 0 <= i < j < s.len() ==> s[i].0 != s[j].0,
    ensures
        forall|k: int|
            0 <= k < s.len() ==> entries_map(s).dom().contains(#[trigger] s[k].0) && entries_map(
                s,
            )[s[k].0] == s[k].1,
        forall|id: u64|
            #[trigger] entries_map(s).dom().contains(id) ==> exists|k: int|
                0 <= k < s.len() && s[k].0 == id,
    decreases s.len(),
{
    if s.len() > 0 {
        assert forall|i: int, j: int| 0 <= i < j < s.drop_last().len() implies s.drop_last()[i].0
            != s.drop_last()[j].0 by {
            assert(s.drop_last()[i] == s[i] && s.drop_last()[j] == s[j]);
        }
        lemma_entries_map_props(s.drop_last());
        assert forall|k: int| 0 <= k < s.len() implies entries_map(s).dom().contains(
            #[trigger] s[k].0,
        ) && entries_map(s)[s[k].0] == s[k].1 by {
            if k < s.len() - 1 {
                assert(s.drop_last()[k] == s[k]);
                assert(s[k].0 != s.last().0);
            }
        }
        assert forall|id: u64| #[trigger] entries_map(s).dom().contains(id) implies exists|k: int|
            0 <= k < s.len() && s[k].0 == id by {
            if id == s.last().0 {
                assert(s[s.len() - 1].0 == id);
            } else {
                assert(entries_map(s.drop_last()).dom().contains(id));
                let k = choose|k: int| 0 <= k < s.drop_last().len() && s.drop_last()[k].0 == id;
                assert(s[k].0 == id);
            }
        }
    }
}

/// Appending a fresh pair inserts it into the denoted map.
pub proof fn lemma_entries_map_push(s: Seq<(u64, u64)>, id: u64, c: u64)
    ensures
        entries_map(s.push((id, c))) == entries_map(s).insert(id, c),
{
    assert(s.push((id, c)).drop_last() =~= s);
}

/// Updating the entry that holds `id` re-inserts it into the denoted map.
pub proof fn lemma_entries_map_update(s: Seq<(u64, u64)>, k: int, id: u64, c: u64)
    requires
        forall|i: int, j: int| 0 <= i < j < s.len() ==> s[i].0 != s[j].0,
        0 <= k < s.len(),
        s[k].0 == id,
    ensures
        entries_map(s.update(k, (id, c))) == entries_map(s).insert(id, c),
    decreases s.len(),
{
    let t = s.update(k, (id, c));
    if k == s.len() - 1 {
        assert(t.drop_last() =~= s.drop_last());
        assert(t.last() == (id, c));
        assert(entries_map(s.drop_last()).insert(id, s.last().1).insert(id, c) =~= entries_map(
            s.drop_last(),
        ).insert(id, c));
    } else {
        assert forall|i: int, j: int| 0 <= i < j < s.drop_last().len() implies s.drop_last()[i].0
            != s.drop_last()[j].0 by {
            assert(s.drop_last()[i] == s[i] && s.drop_last()[j] == s[j]);
        }
        assert(s.drop_last()[k] == s[k]);
        lemma_entries_map_update(s.drop_last(), k, id, c);
        assert(t.drop_last() =~= s.drop_last().update(k, (id, c)));
        assert(t.last() == s.last());
        assert(s.last().0 != id);
        assert(entries_map(s.drop_last()).insert(id, c).insert(s.last().0, s.last().1)
            =~= entries_map(s.drop_last()).insert(s.last().0, s.last().1).insert(id, c));
    }
}

/// A tally: per-issue reaction counts keyed by issue id. Entries keep their
/// first-insertion order, which the ranker's stable sort respects.
pub struct Tally {
    /// `(id, count)` pairs with pairwise distinct ids, in insertion order.
    pub entries: Vec<(u64, u64)>,
}

impl View for Tally {
    type V = Map<u64, u64>;

    open spec fn view(&self) -> Map<u64, u64> {
        entries_map(self.entries@)
    }
}

impl Tally {
    /// Ids are pairwise distinct.
    pub open spec fn wf(self) -> bool {
        forall|i: int, j: int|
            0 <= i < j < self.entries@.len() ==> self.entries@[i].0 != self.entries@[j].0
    }

    /// An empty tally.
    pub fn new() -> (t: Tally)
        ensures
            t.wf(),
            t@ == Map::<u64, u64>::empty(),
            t.entries@ == Seq::<(u64, u64)>::empty(),
    {
        Tally { entries: Vec::new() }
    }

    /// The count recorded for `id`, zero when none is.
    pub fn get(&self, id: u64) -> (c: u64)
        requires
            self.wf(),
        ensures
            c == get_count(self@, id),
    {
        proof {
            lemma_entries_map_props(self.entries@);
        }
        let mut i: usize = 0;
        while i < self.entries.len()
            invariant
                i <= self.entries@.len(),
                self.wf(),
                forall|j: int| 0 <= j < i ==> self.entries@[j].0 != id,
            decreases self.entries@.len() - i,
        {
            let e = self.entries[i];
            if e.0 == id {
                proof {
                    lemma_entries_map_props(self.entries@);
                }
                return e.1;
            }
            i = i + 1;
        }
        proof {
            lemma_entries_map_props(self.entries@);
            if self@.dom().contains(id) {
                let k = choose|k: int|
                    0 <= k < self.entries@.len() && self.entries@[k].0 == id;
                assert(false);
            }
        }
        0
    }

    /// Folds one contribution into the tally: `id`'s count becomes its old
    /// count (zero when absent) plus `count`, capped at `u64::MAX`. A fresh
    /// id is appended; a present id is updated in place.
    pub fn add(&mut self, id: u64, count: u64)
        requires
            old(self).wf(),
        ensures
            final(self).wf(),
            final(self)@ == add_spec(old(self)@, id, count),
            (forall|k: int| 0 <= k < old(self).entries@.len() ==> old(self).entries@[k].0 != id)
                ==> final(self).entries@ == old(self).entries@.push((id, count)),
            forall|k: int|
                0 <= k < old(self).entries@.len() && old(self).entries@[k].0 == id
                    ==> final(self).entries@ == old(self).entries@.update(
                    k,
                    (id, sat_add(old(self).entries@[k].1, count)),
                ),
    {
        let ghost s = self.entries@;
        let mut i: usize = 0;
        while i < self.entries.len()
            invariant
                i <= self.entries@.len(),
                self.entries@ == s,
                s == old(self).entries@,
                forall|a: int, b: int| 0 <= a < b < s.len() ==> s[a].0 != s[b].0,
                forall|j: int| 0 <= j < i ==> s[j].0 != id,
            decreases self.entries@.len() - i,
        {
            let e = self.entries[i];
            if e.0 == id {
                let c = if count > u64::MAX - e.1 {
                    u64::MAX
                } else {
                    e.1 + count
                };
                proof {
                    assert(c == sat_add(s[i as int].1, count));
                }
                let _ = self.entries.remove(i);
                self.entries.insert(i, (id, c));
                proof {
                    assert(self.entries@ =~= s.update(i as int, (id, c)));
                    lemma_entries_map_update(s, i as int, id, c);
                    lemma_entries_map_props(s);
                    assert(get_count(entries_map(s), id) == s[i as int].1);
                    assert forall|k: int|
                        0 <= k < s.len() && s[k].0 == id implies self.entries@ == s.update(
                        k,
                        (id, sat_add(s[k].1, count)),
                    ) by {
                        if k != i as int {
                            assert(false);
                        }
                    }
                }
                return ;
            }
            i = i + 1;
        }
        self.entries.push((id, count));
        proof {
            lemma_entries_map_push(s, id, count);
            lemma_entries_map_props(s);
            if entries_map(s).dom().contains(id) {
                let k = choose|k: int| 0 <= k < s.len() && s[k].0 == id;
                assert(false);
            }
            assert(get_count(entries_map(s), id) == 0);
            assert(sat_add(0, count) == count);
        }
    }

    /// Counts the reactions labelled `label` and folds the count in for `id`.
    pub fn record_reactions(&mut self, id: u64, reactions: &Vec<Reaction>, label: &String)
        requires
            old(self).wf(),
        ensures
            final(self).wf(),
            final(self)@ == add_spec(
                old(self)@,
                id,
                count_label(reactions@, label@) as u64,
            ),
    {
        proof {
            lemma_count_label_bounds(reactions@, label@);
        }
        let n = count_matching(reactions, label);
        self.add(id, n);
    }

    /// Merges another partial tally into this one, pointwise.
    pub fn merge_from(&mut self, other: &Tally)
        requires
            old(self).wf(),
            other.wf(),
        ensures
            final(self).wf(),
            final(self)@ == merge_spec(old(self)@, other@),
    {
        let ghost m = self@;
        let ghost os = other.entries@;
        proof {
            assert(os.take(0) =~= Seq::<(u64, u64)>::empty());
            assert(merge_spec(m, entries_map(os.take(0))) =~= m);
        }
        let mut i: usize = 0;
        while i < other.entries.len()
            invariant
                i <= os.len(),
                os == other.entries@,
                other.wf(),
                self.wf(),
                self@ == merge_spec(m, entries_map(os.take(i as int))),
            decreases os.len() - i,
        {
            let e = other.entries[i];
            proof {
                let t = os.take(i as int);
                assert forall|a: int, b: int| 0 <= a < b < t.len() implies t[a].0 != t[b].0 by {
                    assert(t[a] == os[a] && t[b] == os[b]);
                }
                lemma_entries_map_props(t);
                if entries_map(t).dom().contains(e.0) {
                    let k = choose|k: int| 0 <= k < t.len() && t[k].0 == e.0;
                    assert(os[k] == t[k]);
                    assert(false);
                }
                lemma_merge_step(m, entries_map(t), e.0, e.1);
                lemma_entries_map_push(t, e.0, e.1);
                assert(os.take(i as int).push((e.0, e.1)) =~= os.take(i as int + 1));
            }
            self.add(e.0, e.1);
            i = i + 1;
        }
        proof {
            assert(os.take(os.len() as int) =~= os);
        }
    }
}

/// Folding a fresh contribution into a merge extends the merged side.
pub proof fn lemma_merge_step(m: Map<u64, u64>, t: Map<u64, u64>, id: u64, c: u64)
    requires
        !t.dom().contains(id),
    ensures
        add_spec(merge_spec(m, t), id, c) == merge_spec(m, t.insert(id, c)),
{
    assert forall|k: u64|
        #[trigger] add_spec(merge_spec(m, t), id, c).dom().contains(k) == merge_spec(
            m,
            t.insert(id, c),
        ).dom().contains(k) by {}
    assert forall|k: u64| add_spec(merge_spec(m, t), id, c).dom().contains(k) implies #[trigger] add_spec(
        merge_spec(m, t),
        id,
        c,
    )[k] == merge_spec(m, t.insert(id, c))[k] by {
        lemma_get_count_merge(m, t, k);
        if k == id {
            assert(get_count(t, id) == 0);
            assert(sat_add(get_count(m, id), 0) == get_count(m, id));
        }
    }
    assert(add_spec(merge_spec(m, t), id, c) =~= merge_spec(m, t.insert(id, c)));
}

} // verus!
