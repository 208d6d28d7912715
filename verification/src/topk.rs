//! Fixed-capacity top-k accumulator: the k smallest (distance, id) pairs seen
//! so far, in ascending order.

use vstd::prelude::*;

use crate::bits::{
    at_most, is_nan, law_rank_refines_precedes, less, position, precedes, rank, total_rank, INFINITY,
};
use crate::select::{lemma_selects_ignore, lemma_selects_insert, lemma_subset_len, selects, tie_free};

verus! {

/// Pairs are ordered by the total order of their distances, then by id.
pub open spec fn pair_le(a: (u32, u32), b: (u32, u32)) -> bool {
    rank(a.0) < rank(b.0) || (rank(a.0) == rank(b.0) && a.1 <= b.1)
}

/// The pairs stand in ascending order.
pub open spec fn in_order(s: Seq<(u32, u32)>) -> bool {
    forall|i: int, j: int| 0 <= i <= j < s.len() ==> pair_le(#[trigger] s[i], #[trigger] s[j])
}

/// `s` with `e` in its place, behind the pairs that are no greater.
pub open spec fn placed(s: Seq<(u32, u32)>, e: (u32, u32)) -> Seq<(u32, u32)>
    decreases s.len(),
{
    if s.len() == 0 {
        seq![e]
    } else if pair_le(s.last(), e) {
        s.push(e)
    } else {
        placed(s.drop_last(), e).push(s.last())
    }
}

/// The pairs kept after `e` was offered: while there is room it stays; once
/// full, it takes the place of the worst pair if its distance is smaller.
pub open spec fn pushed(s: Seq<(u32, u32)>, k: nat, e: (u32, u32)) -> Seq<(u32, u32)> {
    if s.len() < k {
        placed(s, e)
    } else if precedes(e.0, s.last().0) {
        placed(s.drop_last(), e)
    } else {
        s
    }
}

/// The pairs kept after all of `items` were offered in turn.
pub open spec fn kept(items: Seq<(u32, u32)>, k: nat) -> Seq<(u32, u32)>
    decreases items.len(),
{
    if items.len() == 0 {
        Seq::empty()
    } else {
        pushed(kept(items.drop_last(), k), k, items.last())
    }
}

/// Keeps the k smallest pairs.
pub struct TopK {
    k: usize,
    pairs: Vec<(u32, u32)>,
}

impl View for TopK {
    type V = Seq<(u32, u32)>;

    closed spec fn view(&self) -> Seq<(u32, u32)> {
        self.pairs@
    }
}

impl TopK {
    /// How many pairs may be kept.
    pub closed spec fn capacity(&self) -> nat {
        self.k as nat
    }

    /// There is room for at least one pair, no more are kept than there is
    /// room for, and they stand in order.
    pub open spec fn wf(&self) -> bool {
        &&& 0 < self.capacity()
        &&& self@.len() <= self.capacity()
        &&& in_order(self@)
    }

    /// An empty accumulator for `k` pairs.
    pub fn new(k: usize) -> (t: Self)
        requires
            k > 0,
        ensures
            t.wf(),
            t.capacity() == k,
            t@ == Seq::<(u32, u32)>::empty(),
    {
        TopK { k, pairs: Vec::new() }
    }

    /// Current admission threshold: once full, pushes of a distance that is
    /// not smaller change nothing. Exposed so scans can prune early.
    pub fn threshold(&self) -> (d: u32)
        requires
            self.wf(),
        ensures
            d == (if self@.len() < self.capacity() { INFINITY } else { self@.last().0 }),
    {
        if self.pairs.len() < self.k {
            INFINITY
        } else {
            self.pairs[self.pairs.len() - 1].0
        }
    }

    /// Offers a pair.
    pub fn push(&mut self, dist: u32, id: u32)
        requires
            old(self).wf(),
        ensures
            final(self).wf(),
            final(self).capacity() == old(self).capacity(),
            final(self)@ == pushed(old(self)@, old(self).capacity(), (dist, id)),
    {
        let ghost before = self.pairs@;
        if self.pairs.len() < self.k {
            proof {
                lemma_placed(before, (dist, id));
            }
            place(&mut self.pairs, dist, id);
        } else if less(dist, self.pairs[self.pairs.len() - 1].0) {
            proof {
                lemma_placed(before.drop_last(), (dist, id));
            }
            self.pairs.pop();
            place(&mut self.pairs, dist, id);
        }
    }

    /// Results in ascending distance order.
    pub fn into_sorted(self) -> (v: Vec<(u32, u32)>)
        ensures
            v@ == self@,
    {
        self.pairs
    }
}

/// Puts a pair in its place.
fn place(pairs: &mut Vec<(u32, u32)>, dist: u32, id: u32)
    ensures
        final(pairs)@ == placed(old(pairs)@, (dist, id)),
{
    let ghost before = pairs@;
    let ghost e = (dist, id);
    let mut at: usize = pairs.len();
    let r: i64 = total_rank(dist);
    assert(before.take(at as int) =~= before);
    assert(before.skip(at as int) =~= Seq::empty());
    assert(placed(before, e) =~= placed(before, e) + Seq::empty());
    while at > 0 && !(total_rank(pairs[at - 1].0) < r || (total_rank(pairs[at - 1].0) == r && pairs[at - 1].1 <= id))
        invariant
            at <= pairs@.len(),
            pairs@ == before,
            r == rank(dist),
            e == (dist, id),
            placed(before, e) == placed(before.take(at as int), e) + before.skip(at as int),
        decreases at,
    {
        proof {
            let head = before.take(at as int);
            assert(head.last() == before[at - 1]);
            assert(head.drop_last() =~= before.take(at - 1));
            assert(placed(head, e) == placed(head.drop_last(), e).push(head.last()));
            assert(placed(head.drop_last(), e).push(head.last()) + before.skip(at as int) =~= placed(
                before.take(at - 1),
                e,
            ) + before.skip(at - 1));
        }
        at -= 1;
    }
    proof {
        let head = before.take(at as int);
        if at > 0 {
            assert(head.last() == before[at - 1]);
        } else {
            assert(seq![e] =~= head.push(e));
        }
        assert(placed(head, e) == head.push(e));
        assert(before.insert(at as int, e) =~= head.push(e) + before.skip(at as int));
    }
    pairs.insert(at, (dist, id));
}

/// Placing keeps the order, and puts in the pair at one spot.
pub proof fn lemma_placed(s: Seq<(u32, u32)>, e: (u32, u32))
    requires
        in_order(s),
    ensures
        in_order(placed(s, e)),
        placed(s, e).len() == s.len() + 1,
        exists|at: int|
            0 <= at <= s.len() && placed(s, e) == s.insert(at, e) && (forall|i: int|
                0 <= i < at ==> pair_le(#[trigger] s[i], e)) && (forall|i: int|
                at <= i < s.len() ==> !pair_le(#[trigger] s[i], e)),
    decreases s.len(),
{
    if s.len() == 0 {
        assert(seq![e] =~= s.insert(0, e));
    } else if pair_le(s.last(), e) {
        assert(s.push(e) =~= s.insert(s.len() as int, e));
        assert forall|i: int| 0 <= i < s.len() implies pair_le(#[trigger] s[i], e) by {
            assert(pair_le(s[i], s[s.len() - 1]));
        }
    } else {
        let t = s.drop_last();
        lemma_placed(t, e);
        let at = choose|at: int|
            0 <= at <= t.len() && placed(t, e) == t.insert(at, e) && (forall|i: int|
                0 <= i < at ==> pair_le(#[trigger] t[i], e)) && (forall|i: int|
                at <= i < t.len() ==> !pair_le(#[trigger] t[i], e));
        assert(placed(s, e) =~= s.insert(at, e));
        assert forall|i: int| 0 <= i < at implies pair_le(#[trigger] s[i], e) by {
            assert(s[i] == t[i]);
        }
        assert forall|i: int| at <= i < s.len() implies !pair_le(#[trigger] s[i], e) by {
            if i < t.len() {
                assert(s[i] == t[i]);
            }
        }
        let g = placed(s, e);
        assert forall|i: int, j: int| 0 <= i <= j < g.len() implies pair_le(#[trigger] g[i], #[trigger] g[j]) by {
            if j == g.len() - 1 && i < j {
                if i == at {
                } else if i < at {
                    assert(g[i] == s[i]);
                    assert(pair_le(s[i], s[s.len() - 1]));
                } else {
                    assert(g[i] == s[i - 1]);
                    assert(pair_le(s[i - 1], s[s.len() - 1]));
                }
            } else if i < j {
                assert(g[i] == placed(t, e)[i]);
                assert(g[j] == placed(t, e)[j]);
            }
        }
    }
}

/// Offering pairs one after the other leaves no more than fit, in order.
pub proof fn lemma_kept_in_order(items: Seq<(u32, u32)>, k: nat)
    requires
        k > 0,
    ensures
        in_order(kept(items, k)),
        kept(items, k).len() == (if items.len() < k { items.len() } else { k }),
    decreases items.len(),
{
    if items.len() > 0 {
        let before = kept(items.drop_last(), k);
        lemma_kept_in_order(items.drop_last(), k);
        if before.len() < k {
            lemma_placed(before, items.last());
        } else if precedes(items.last().0, before.last().0) {
            lemma_placed(before.drop_last(), items.last());
        }
    }
}

/// Everything that is kept was offered.
pub proof fn lemma_kept_offered(items: Seq<(u32, u32)>, k: nat)
    requires
        k > 0,
    ensures
        forall|j: int| 0 <= j < kept(items, k).len() ==> items.contains(#[trigger] kept(items, k)[j]),
    decreases items.len(),
{
    if items.len() > 0 {
        let init = items.drop_last();
        let e = items.last();
        let before = kept(init, k);
        let after = kept(items, k);
        lemma_kept_offered(init, k);
        lemma_kept_in_order(init, k);
        assert forall|j: int| 0 <= j < before.len() implies items.contains(#[trigger] before[j]) by {
            let i = choose|i: int| 0 <= i < init.len() && init[i] == before[j];
            assert(items[i] == before[j]);
        }
        assert(items[items.len() - 1] == e);
        if before.len() < k {
            lemma_placed(before, e);
        } else if precedes(e.0, before.last().0) {
            lemma_placed(before.drop_last(), e);
        }
        assert forall|j: int| 0 <= j < after.len() implies items.contains(#[trigger] after[j]) by {
            if before.len() < k {
                let at = choose|at: int| 0 <= at <= before.len() && placed(before, e) == before.insert(at, e);
                if j < at {
                    assert(after[j] == before[j]);
                } else if j > at {
                    assert(after[j] == before[j - 1]);
                }
            } else if precedes(e.0, before.last().0) {
                let rest = before.drop_last();
                let at = choose|at: int| 0 <= at <= rest.len() && placed(rest, e) == rest.insert(at, e);
                if j < at {
                    assert(after[j] == before[j]);
                } else if j > at {
                    assert(after[j] == before[j - 1]);
                }
            }
        }
    }
}

/// Once full, pushing a distance that is not below the threshold changes
/// nothing.
pub proof fn law_threshold_prunes(s: Seq<(u32, u32)>, k: nat, e: (u32, u32))
    requires
        s.len() >= k,
        !precedes(e.0, s.last().0),
    ensures
        pushed(s, k, e) == s,
{
}

/// Of numbers, the accumulator keeps the smallest: every pair that was
/// offered is kept, or else the accumulator is full and nothing in it is
/// further away; and everything kept was offered.
pub proof fn law_keeps_smallest(items: Seq<(u32, u32)>, k: nat)
    requires
        k > 0,
        forall|i: int| 0 <= i < items.len() ==> !is_nan(#[trigger] items[i].0),
    ensures
        in_order(kept(items, k)),
        kept(items, k).len() == (if items.len() < k { items.len() } else { k }),
        kept(items, k).to_multiset().subset_of(items.to_multiset()),
        forall|e: (u32, u32), j: int|
            #![trigger kept(items, k)[j], items.to_multiset().count(e)]
            items.to_multiset().count(e) > kept(items, k).to_multiset().count(e) && 0 <= j < kept(items, k).len()
                ==> at_most(kept(items, k)[j].0, e.0),
    decreases items.len(),
{
    broadcast use vstd::multiset::group_multiset_axioms;

    lemma_kept_in_order(items, k);
    if items.len() == 0 {
        assert(kept(items, k) =~= items);
    } else {
        let init = items.drop_last();
        let e = items.last();
        let before = kept(init, k);
        let after = kept(items, k);
        law_keeps_smallest(init, k);
        lemma_kept_in_order(init, k);
        assert(items =~= init.push(e));
        init.to_multiset_ensures();
        before.to_multiset_ensures();
        assert(items.to_multiset() =~= init.to_multiset().insert(e));
        assert forall|j: int| 0 <= j < before.len() implies !is_nan((#[trigger] before[j]).0) by {
            assert(before.contains(before[j]));
            assert(before.to_multiset().contains(before[j]));
            assert(init.to_multiset().contains(before[j]));
            assert(init.contains(before[j]));
            let i = choose|i: int| 0 <= i < init.len() && init[i] == before[j];
            assert(items[i] == before[j]);
        }
        assert(!is_nan(items[items.len() - 1].0));
        if before.len() < k {
            lemma_placed_multiset(before, e);
            assert(init.len() < k);
            lemma_all_kept(init, k);
        } else if precedes(e.0, before.last().0) {
            let rest = before.drop_last();
            let worst = before.last();
            lemma_placed(rest, e);
            lemma_placed_multiset(rest, e);
            rest.to_multiset_ensures();
            assert(before =~= rest.push(worst));
            assert(before.to_multiset() =~= rest.to_multiset().insert(worst));
            assert(after.to_multiset() =~= rest.to_multiset().insert(e));
            assert forall|x: (u32, u32), j: int|
                #![trigger after[j], items.to_multiset().count(x)]
                items.to_multiset().count(x) > after.to_multiset().count(x) && 0 <= j < after.len() implies at_most(
                after[j].0,
                x.0,
            ) by {
                let at = choose|at: int|
                    0 <= at <= rest.len() && placed(rest, e) == rest.insert(at, e) && (forall|i: int|
                        0 <= i < at ==> pair_le(#[trigger] rest[i], e)) && (forall|i: int|
                        at <= i < rest.len() ==> !pair_le(#[trigger] rest[i], e));
                assert(at_most(after[j].0, worst.0)) by {
                    if j < at {
                        assert(after[j] == before[j]);
                        assert(pair_le(before[j], before[before.len() - 1]));
                    } else if j > at {
                        assert(after[j] == before[j - 1]);
                        assert(pair_le(before[j - 1], before[before.len() - 1]));
                    }
                }
                if x != worst {
                    assert(init.to_multiset().count(x) > before.to_multiset().count(x));
                    assert(at_most(before[before.len() - 1].0, x.0));
                }
            }
        } else {
            assert forall|x: (u32, u32), j: int|
                #![trigger after[j], items.to_multiset().count(x)]
                items.to_multiset().count(x) > after.to_multiset().count(x) && 0 <= j < after.len() implies at_most(
                after[j].0,
                x.0,
            ) by {
                assert(pair_le(before[j], before[before.len() - 1]));
                if x != e {
                    assert(at_most(before[j].0, x.0));
                } else if init.to_multiset().count(x) > before.to_multiset().count(x) {
                    assert(at_most(before[j].0, x.0));
                }
            }
        }
    }
}

proof fn lemma_placed_multiset(s: Seq<(u32, u32)>, e: (u32, u32))
    ensures
        placed(s, e).to_multiset() == s.to_multiset().insert(e),
    decreases s.len(),
{
    s.to_multiset_ensures();
    if s.len() == 0 {
        assert(seq![e] =~= s.push(e));
    } else if pair_le(s.last(), e) {
    } else {
        let t = s.drop_last();
        lemma_placed_multiset(t, e);
        placed(t, e).to_multiset_ensures();
        t.to_multiset_ensures();
        assert(s =~= t.push(s.last()));
        assert(placed(s, e).to_multiset() =~= s.to_multiset().insert(e));
    }
}

/// While there is room, nothing is let go.
pub proof fn lemma_all_kept(items: Seq<(u32, u32)>, k: nat)
    requires
        items.len() <= k,
    ensures
        kept(items, k).to_multiset() == items.to_multiset(),
        kept(items, k).len() == items.len(),
    decreases items.len(),
{
    items.to_multiset_ensures();
    if items.len() == 0 {
        assert(kept(items, k) =~= items);
    } else {
        let init = items.drop_last();
        lemma_all_kept(init, k);
        init.to_multiset_ensures();
        let before = kept(init, k);
        lemma_placed_multiset(before, items.last());
        assert(items =~= init.push(items.last()));
        placed(before, items.last()).to_multiset_ensures();
        before.to_multiset_ensures();
        assert(placed(before, items.last()).len() == placed(before, items.last()).to_multiset().len());
    }
}

/// Of offers that are all different numbers, everything kept was offered,
/// nothing is kept twice, and whatever is not kept is no closer than what is.
pub proof fn lemma_kept_membership(items: Seq<(u32, u32)>, k: nat)
    requires
        k > 0,
        items.no_duplicates(),
        forall|i: int| 0 <= i < items.len() ==> !is_nan(#[trigger] items[i].0),
    ensures
        kept(items, k).no_duplicates(),
        forall|j: int| 0 <= j < kept(items, k).len() ==> items.contains(#[trigger] kept(items, k)[j]),
        forall|e: (u32, u32), j: int|
            items.contains(e) && !kept(items, k).contains(e) && 0 <= j < kept(items, k).len() ==> at_most(
                (#[trigger] kept(items, k)[j]).0,
                #[trigger] e.0,
            ),
{
    let t = kept(items, k);
    law_keeps_smallest(items, k);
    items.to_multiset_ensures();
    t.to_multiset_ensures();
    items.lemma_multiset_has_no_duplicates();
    assert forall|x: (u32, u32)| t.to_multiset().contains(x) implies t.to_multiset().count(x) == 1 by {
        assert(items.to_multiset().contains(x));
    }
    t.lemma_multiset_has_no_duplicates_conv();
    assert forall|j: int| 0 <= j < t.len() implies items.contains(#[trigger] t[j]) by {
        assert(t.contains(t[j]));
        assert(t.to_multiset().contains(t[j]));
        assert(items.to_multiset().contains(t[j]));
    }
    assert forall|e: (u32, u32), j: int| items.contains(e) && !t.contains(e) && 0 <= j < t.len() implies at_most(
        (#[trigger] t[j]).0,
        #[trigger] e.0,
    ) by {
        assert(items.to_multiset().count(e) > 0);
        assert(t.to_multiset().count(e) == 0);
    }
}

/// The set of the pairs of a list.
pub open spec fn pair_set(items: Seq<(u32, u32)>) -> Set<(u32, u32)> {
    items.to_set()
}

/// Where no two distances tie, what is kept is the closest of what was
/// offered, and so does not depend on the order of the offers.
pub proof fn lemma_kept_selects(items: Seq<(u32, u32)>, k: nat)
    requires
        k > 0,
        items.no_duplicates(),
        tie_free(pair_set(items)),
    ensures
        selects(kept(items, k), k, pair_set(items)),
    decreases items.len(),
{
    if items.len() == 0 {
    } else {
        let init = items.drop_last();
        let e = items.last();
        let before = kept(init, k);
        let seen = pair_set(init);
        let all = pair_set(items);
        assert(items =~= init.push(e));
        assert(all =~= seen.insert(e)) by {
            assert forall|x: (u32, u32)| all.contains(x) implies seen.insert(e).contains(x) by {
                let i = choose|i: int| 0 <= i < items.len() && items[i] == x;
                if i < init.len() {
                    assert(init[i] == x);
                }
            }
            assert forall|x: (u32, u32)| seen.insert(e).contains(x) implies all.contains(x) by {
                if x == e {
                    assert(items[items.len() - 1] == e);
                } else {
                    let i = choose|i: int| 0 <= i < init.len() && init[i] == x;
                    assert(items[i] == x);
                }
            }
        }
        assert(!seen.contains(e)) by {
            if seen.contains(e) {
                let i = choose|i: int| 0 <= i < init.len() && init[i] == e;
                assert(items[i] == items[items.len() - 1]);
            }
        }
        assert(tie_free(seen)) by {
            assert forall|x: (u32, u32)| #[trigger] seen.contains(x) implies !is_nan(x.0) by {
                assert(all.contains(x));
            }
            assert forall|x: (u32, u32), y: (u32, u32)| #[trigger]
                seen.contains(x) && #[trigger] seen.contains(y) && x != y implies position(x.0) != position(y.0) by {
                assert(all.contains(x) && all.contains(y));
            }
        }
        assert(init.no_duplicates());
        lemma_kept_selects(init, k);
        lemma_kept_in_order(init, k);
        assert(all.contains(e));
        assert forall|i: int| 0 <= i < before.len() implies !is_nan((#[trigger] before[i]).0) && position(before[i].0)
            != position(e.0) by {
            assert(seen.contains(before[i]));
            assert(all.contains(before[i]));
        }
        if before.len() < k {
            lemma_placed(before, e);
            let at = choose|at: int|
                0 <= at <= before.len() && placed(before, e) == before.insert(at, e) && (forall|i: int|
                    0 <= i < at ==> pair_le(#[trigger] before[i], e)) && (forall|i: int|
                    at <= i < before.len() ==> !pair_le(#[trigger] before[i], e));
            lemma_selects_insert(before, k, seen, e, at);
        } else if precedes(e.0, before.last().0) {
            let rest = before.drop_last();
            lemma_placed(rest, e);
            let at = choose|at: int|
                0 <= at <= rest.len() && placed(rest, e) == rest.insert(at, e) && (forall|i: int|
                    0 <= i < at ==> pair_le(#[trigger] rest[i], e)) && (forall|i: int|
                    at <= i < rest.len() ==> !pair_le(#[trigger] rest[i], e));
            assert forall|i: int| 0 <= i < at implies position((#[trigger] before[i]).0) < position(e.0) by {
                assert(before[i] == rest[i]);
            }
            assert forall|i: int| at <= i < before.len() implies position(e.0) < position(
                (#[trigger] before[i]).0,
            ) by {
                if i < rest.len() {
                    assert(before[i] == rest[i]);
                }
            }
            lemma_selects_insert(before, k, seen, e, at);
            assert(before.insert(at, e).drop_last() =~= rest.insert(at, e));
        } else {
            lemma_selects_ignore(before, k, seen, e);
        }
    }
}

/// A list that holds the smallest of the offers in order is as close, place by
/// place, as what the accumulator keeps of them.
pub proof fn lemma_kept_as_close(items: Seq<(u32, u32)>, s: Seq<(u32, u32)>, k: nat)
    requires
        k > 0,
        items.no_duplicates(),
        forall|i: int| 0 <= i < items.len() ==> !is_nan(#[trigger] items[i].0),
        s.no_duplicates(),
        forall|i: int| 0 <= i < s.len() ==> items.contains(#[trigger] s[i]),
        forall|i: int, j: int| 0 <= i <= j < s.len() ==> at_most((#[trigger] s[i]).0, (#[trigger] s[j]).0),
        forall|e: (u32, u32)| #[trigger]
            items.contains(e) && !s.contains(e) ==> s.len() >= k && forall|j: int|
                0 <= j < s.len() ==> at_most((#[trigger] s[j]).0, e.0),
    ensures
        kept(items, k).len() == (if k < s.len() { k } else { s.len() }),
        forall|j: int|
            0 <= j < kept(items, k).len() ==> position((#[trigger] kept(items, k)[j]).0) == position(s[j].0),
{
    let t = kept(items, k);
    law_keeps_smallest(items, k);
    lemma_kept_membership(items, k);
    lemma_subset_len(s, items);
    if s.len() < k {
        assert forall|i: int| 0 <= i < items.len() implies s.contains(#[trigger] items[i]) by {
            assert(items.contains(items[i]));
        }
        lemma_subset_len(items, s);
    }
    assert forall|e: (u32, u32)| #[trigger] items.contains(e) implies !is_nan(e.0) by {
        let i = choose|i: int| 0 <= i < items.len() && items[i] == e;
        assert(!is_nan(items[i].0));
    }
    assert forall|j: int| 0 <= j < t.len() implies position((#[trigger] t[j]).0) == position(s[j].0) by {
        assert(items.contains(t[j]) && items.contains(s[j]));
        if position(t[j].0) < position(s[j].0) {
            let head = t.take(j + 1);
            assert forall|i: int| 0 <= i < head.len() implies s.take(j).contains(#[trigger] head[i]) by {
                let e = t[i];
                assert(items.contains(e));
                assert(pair_le(t[i], t[j]));
                law_rank_refines_precedes(e.0, t[j].0);
                if !s.contains(e) {
                    assert(at_most(s[j].0, e.0));
                }
                let c = choose|c: int| 0 <= c < s.len() && s[c] == e;
                if c >= j {
                    assert(at_most(s[j].0, s[c].0));
                }
                assert(s.take(j)[c] == e);
            }
            assert(head.no_duplicates());
            lemma_subset_len(head, s.take(j));
        }
        if position(s[j].0) < position(t[j].0) {
            let head = s.take(j + 1);
            assert forall|i: int| 0 <= i < head.len() implies t.take(j).contains(#[trigger] head[i]) by {
                let e = s[i];
                assert(items.contains(e));
                assert(at_most(s[i].0, s[j].0));
                if !t.contains(e) {
                    assert(at_most(t[j].0, e.0));
                }
                let c = choose|c: int| 0 <= c < t.len() && t[c] == e;
                if c >= j {
                    assert(pair_le(t[j], t[c]));
                    law_rank_refines_precedes(t[j].0, e.0);
                }
                assert(t.take(j)[c] == e);
            }
            assert(head.no_duplicates());
            lemma_subset_len(head, t.take(j));
        }
    }
}

/// An accumulator keeps its pairs by distance, and those of one distance by
/// id. While there is room, an offer joins them. Once it is full, an offer
/// that is closer than the last pair takes its place, and any other changes
/// nothing.
pub proof fn law_offers_join_or_replace_the_last(s: Seq<(u32, u32)>, k: nat, e: (u32, u32))
    requires
        in_order(s),
        0 < k,
        s.len() <= k,
    ensures
        ({
            let out = pushed(s, k, e);
            &&& s.len() < k ==> out.to_multiset() == s.to_multiset().insert(e)
            &&& s.len() == k && !is_nan(e.0) && !is_nan(s.last().0) && position(e.0) < position(s.last().0)
                ==> out.to_multiset() == s.drop_last().to_multiset().insert(e)
            &&& s.len() == k && (is_nan(e.0) || is_nan(s.last().0) || position(e.0) >= position(s.last().0)) ==> out
                == s
            &&& forall|i: int, j: int|
                0 <= i < j < out.len() ==> rank((#[trigger] out[i]).0) < rank((#[trigger] out[j]).0) || (rank(out[i].0)
                    == rank(out[j].0) && out[i].1 <= out[j].1)
        }),
{
    let out = pushed(s, k, e);
    if s.len() < k {
        lemma_placed(s, e);
        lemma_placed_multiset(s, e);
    } else if precedes(e.0, s.last().0) {
        lemma_placed(s.drop_last(), e);
        lemma_placed_multiset(s.drop_last(), e);
    }
    assert(in_order(out));
    assert forall|i: int, j: int| 0 <= i < j < out.len() implies rank((#[trigger] out[i]).0) < rank(
        (#[trigger] out[j]).0,
    ) || (rank(out[i].0) == rank(out[j].0) && out[i].1 <= out[j].1) by {
        assert(pair_le(out[i], out[j]));
    }
}

/// Offering one pair after the other: nothing is kept of nothing, and one more
/// offer is made to what was kept of those before it.
pub proof fn law_offers_come_one_by_one(items: Seq<(u32, u32)>, k: nat, e: (u32, u32))
    ensures
        kept(Seq::empty(), k) == Seq::<(u32, u32)>::empty(),
        kept(items.push(e), k) == pushed(kept(items, k), k, e),
{
    assert(items.push(e).drop_last() =~= items);
}

} // verus!
