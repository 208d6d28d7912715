//! What it means to have kept the closest of what was seen.
//!
//! Both the candidate pool of a search and the top-k accumulator hold a
//! bounded, ascending list of (distance, id) pairs. Where no two distances
//! tie, such a list is settled by what was seen and how many may stay: the
//! order in which the pairs came leaves no trace.

use vstd::prelude::*;

use crate::bits::{is_nan, position};

verus! {

/// Distances are numbers, and no two of the pairs tie.
pub open spec fn tie_free(seen: Set<(u32, u32)>) -> bool {
    &&& forall|e: (u32, u32)| #[trigger] seen.contains(e) ==> !is_nan(e.0)
    &&& forall|e: (u32, u32), f: (u32, u32)| #[trigger]
        seen.contains(e) && #[trigger] seen.contains(f) && e != f ==> position(e.0) != position(f.0)
}

/// Distances increase strictly along the list.
pub open spec fn ascending(s: Seq<(u32, u32)>) -> bool {
    forall|i: int, j: int| 0 <= i < j < s.len() ==> position(#[trigger] s[i].0) < position(#[trigger] s[j].0)
}

/// `s` holds, in ascending order, the at most `cap` closest of `seen`.
pub open spec fn selects(s: Seq<(u32, u32)>, cap: nat, seen: Set<(u32, u32)>) -> bool {
    &&& ascending(s)
    &&& s.len() <= cap
    &&& forall|i: int| 0 <= i < s.len() ==> seen.contains(#[trigger] s[i])
    &&& forall|e: (u32, u32)| #[trigger]
        seen.contains(e) && !s.contains(e) ==> s.len() == cap && forall|i: int|
            0 <= i < s.len() ==> position(#[trigger] s[i].0) < position(e.0)
}

proof fn lemma_ascending_distinct(s: Seq<(u32, u32)>)
    requires
        ascending(s),
    ensures
        s.no_duplicates(),
{
    assert forall|i: int, j: int| 0 <= i < s.len() && 0 <= j < s.len() && i != j implies s[i] != s[j] by {
        if i < j {
            assert(position(s[i].0) < position(s[j].0));
        } else {
            assert(position(s[j].0) < position(s[i].0));
        }
    }
}

/// A duplicate-free list whose elements all occur in another is no longer
/// than the other; if it is as long, the other has no further elements.
pub proof fn lemma_subset_len<A>(s: Seq<A>, t: Seq<A>)
    requires
        s.no_duplicates(),
        forall|i: int| 0 <= i < s.len() ==> t.contains(#[trigger] s[i]),
    ensures
        s.len() <= t.len(),
        s.len() == t.len() ==> forall|i: int| 0 <= i < t.len() ==> s.contains(#[trigger] t[i]),
{
    s.unique_seq_to_set();
    t.lemma_cardinality_of_set();
    let a = s.to_set();
    let b = t.to_set();
    assert(a.subset_of(b)) by {
        assert forall|x: A| a.contains(x) implies b.contains(x) by {
            let i = choose|i: int| 0 <= i < s.len() && s[i] == x;
            assert(t.contains(s[i]));
        }
    }
    vstd::set_lib::lemma_len_subset(a, b);
    if s.len() == t.len() {
        vstd::set_lib::lemma_subset_equality(a, b);
        assert forall|i: int| 0 <= i < t.len() implies s.contains(#[trigger] t[i]) by {
            assert(b.contains(t[i]));
        }
    }
}

/// Ascending lists with the same elements are the same list.
proof fn lemma_ascending_unique(s: Seq<(u32, u32)>, t: Seq<(u32, u32)>)
    requires
        ascending(s),
        ascending(t),
        s.len() == t.len(),
        forall|i: int| 0 <= i < s.len() ==> t.contains(#[trigger] s[i]),
    ensures
        s == t,
    decreases s.len(),
{
    if s.len() > 0 {
        lemma_ascending_distinct(s);
        lemma_ascending_distinct(t);
        lemma_subset_len(s, t);
        let n = s.len() - 1;
        assert(t.contains(s[n]));
        assert(s.contains(t[n]));
        let i = choose|i: int| 0 <= i < t.len() && t[i] == s[n];
        let j = choose|j: int| 0 <= j < s.len() && s[j] == t[n];
        assert(s[n] == t[n]) by {
            if i < n {
                assert(position(t[i].0) < position(t[n].0));
                if j < n {
                    assert(position(s[j].0) < position(s[n].0));
                }
            }
        }
        let s1 = s.drop_last();
        let t1 = t.drop_last();
        assert forall|a: int| 0 <= a < s1.len() implies t1.contains(#[trigger] s1[a]) by {
            assert(t.contains(s[a]));
            let b = choose|b: int| 0 <= b < t.len() && t[b] == s[a];
            assert(s[a] != s[n]);
            assert(b < n);
            assert(t1[b] == s1[a]);
        }
        lemma_ascending_unique(s1, t1);
        assert(s =~= s1.push(s[n]));
        assert(t =~= t1.push(t[n]));
    }
}

/// What was seen and how many may stay settle the list.
pub proof fn lemma_selects_unique(s: Seq<(u32, u32)>, t: Seq<(u32, u32)>, cap: nat, seen: Set<(u32, u32)>)
    requires
        selects(s, cap, seen),
        selects(t, cap, seen),
    ensures
        s == t,
{
    lemma_ascending_distinct(s);
    lemma_ascending_distinct(t);
    if exists|i: int| 0 <= i < s.len() && !t.contains(#[trigger] s[i]) {
        let i = choose|i: int| 0 <= i < s.len() && !t.contains(#[trigger] s[i]);
        assert(seen.contains(s[i]));
        // t is full, and everything in it is closer than s[i].
        if forall|j: int| 0 <= j < t.len() ==> s.contains(#[trigger] t[j]) {
            lemma_subset_len(t, s);
            assert(t.contains(s[i]));
            assert(false);
        } else {
            let j = choose|j: int| 0 <= j < t.len() && !s.contains(#[trigger] t[j]);
            assert(seen.contains(t[j]));
            assert(position(t[j].0) < position(s[i].0));
            assert(position(s[i].0) < position(t[j].0));
            assert(false);
        }
    }
    lemma_subset_len(s, t);
    if s.len() < t.len() {
        if forall|j: int| 0 <= j < t.len() ==> s.contains(#[trigger] t[j]) {
            lemma_subset_len(t, s);
        } else {
            let j = choose|j: int| 0 <= j < t.len() && !s.contains(#[trigger] t[j]);
            assert(seen.contains(t[j]));
        }
        assert(false);
    }
    lemma_ascending_unique(s, t);
}

/// Putting a new pair in its place, and letting the last go where there is
/// one too many, keeps the closest.
pub proof fn lemma_selects_insert(
    s: Seq<(u32, u32)>,
    cap: nat,
    seen: Set<(u32, u32)>,
    e: (u32, u32),
    at: int,
)
    requires
        selects(s, cap, seen),
        tie_free(seen.insert(e)),
        !seen.contains(e),
        0 <= at <= s.len(),
        forall|i: int| 0 <= i < at ==> position(#[trigger] s[i].0) < position(e.0),
        forall|i: int| at <= i < s.len() ==> position(e.0) < position(#[trigger] s[i].0),
        s.len() < cap || (s.len() > 0 && position(e.0) < position(s.last().0)),
    ensures
        s.len() < cap ==> selects(s.insert(at, e), cap, seen.insert(e)),
        s.len() == cap ==> selects(s.insert(at, e).drop_last(), cap, seen.insert(e)),
{
    let g = s.insert(at, e);
    let all = seen.insert(e);
    assert forall|i: int| 0 <= i < g.len() implies all.contains(#[trigger] g[i]) by {
        if i < at {
            assert(g[i] == s[i]);
        } else if i > at {
            assert(g[i] == s[i - 1]);
        }
    }
    assert(ascending(g)) by {
        assert forall|i: int, j: int| 0 <= i < j < g.len() implies position(#[trigger] g[i].0) < position(
            #[trigger] g[j].0,
        ) by {
            if j < at {
            } else if j == at {
                assert(g[i] == s[i]);
            } else if i < at {
                assert(g[j] == s[j - 1]);
                assert(g[i] == s[i]);
            } else if i == at {
                assert(g[j] == s[j - 1]);
            } else {
                assert(g[i] == s[i - 1] && g[j] == s[j - 1]);
            }
        }
    }
    if s.len() < cap {
        assert forall|x: (u32, u32)| #[trigger] all.contains(x) && !g.contains(x) implies g.len() == cap && forall|
            i: int,
        |
            0 <= i < g.len() ==> position(#[trigger] g[i].0) < position(x.0) by {
            assert(g[at] == e);
            assert(x != e);
            assert(seen.contains(x));
            if s.contains(x) {
                let i = choose|i: int| 0 <= i < s.len() && s[i] == x;
                if i < at {
                    assert(g[i] == x);
                } else {
                    assert(g[i + 1] == x);
                }
            }
            assert(false);
        }
    } else {
        let h = g.drop_last();
        let last = s.last();
        assert(at < s.len());
        assert(g.last() == last);
        assert forall|x: (u32, u32)| #[trigger] all.contains(x) && !h.contains(x) implies h.len() == cap && forall|
            i: int,
        |
            0 <= i < h.len() ==> position(#[trigger] h[i].0) < position(x.0) by {
            assert(h[at] == e);
            assert(x != e);
            assert(seen.contains(x));
            if s.contains(x) {
                let i = choose|i: int| 0 <= i < s.len() && s[i] == x;
                if i < at {
                    assert(h[i] == x);
                } else if i + 1 < s.len() {
                    assert(h[i + 1] == x);
                }
                assert(x == last);
            } else {
                assert(position(last.0) < position(x.0));
            }
            assert forall|i: int| 0 <= i < h.len() implies position(#[trigger] h[i].0) < position(x.0) by {
                assert(position(g[i].0) < position(g[g.len() - 1].0));
            }
        }
    }
}

/// A pair that is no closer than the last of a full list changes nothing.
pub proof fn lemma_selects_ignore(s: Seq<(u32, u32)>, cap: nat, seen: Set<(u32, u32)>, e: (u32, u32))
    requires
        selects(s, cap, seen),
        tie_free(seen.insert(e)),
        !seen.contains(e),
        s.len() == cap,
        s.len() > 0,
        position(s.last().0) <= position(e.0),
    ensures
        selects(s, cap, seen.insert(e)),
{
    let all = seen.insert(e);
    assert(seen.contains(s[s.len() - 1]));
    assert(all.contains(s.last()) && all.contains(e));
    assert(position(s.last().0) < position(e.0));
    assert forall|i: int| 0 <= i < s.len() implies position(#[trigger] s[i].0) < position(e.0) by {
        if i < s.len() - 1 {
            assert(position(s[i].0) < position(s[s.len() - 1].0));
        }
    }
    assert forall|i: int| 0 <= i < s.len() implies all.contains(#[trigger] s[i]) by {
        assert(seen.contains(s[i]));
    }
}

/// Whether a list holds an id.
pub(crate) fn holds(list: &[u32], id: u32) -> (b: bool)
    ensures
        b == list@.contains(id),
{
    let mut i: usize = 0;
    while i < list.len()
        invariant
            i <= list@.len(),
            forall|j: int| 0 <= j < i ==> #[trigger] list@[j] != id,
        decreases list@.len() - i,
    {
        if list[i] == id {
            return true;
        }
        i += 1;
    }
    false
}

} // verus!
