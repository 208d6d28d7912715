//! Distance kernels.
//!
//! The order of the additions is part of a distance: reranking a vector that
//! was read from disk gives, bit for bit, what scoring it in memory gives,
//! because both add up the same numbers in the same order. This module fixes
//! that order; the arithmetic of a single step is handed in.

use vstd::prelude::*;

use crate::bits::{at_most, is_nan};

verus! {

/// Independent accumulators per lane break the loop-carried dependency, which
/// is what lets a compiler emit packed instructions.
pub const LANES: usize = 8;

/// The step takes any three numbers, and always gives the same for the same.
pub open spec fn steady_step<F: Fn(u32, u32, u32) -> u32>(step: &F) -> bool {
    &&& forall|a: u32, x: u32, y: u32| #[trigger] call_requires(*step, (a, x, y))
    &&& forall|a: u32, x: u32, y: u32, r: u32, s: u32| #[trigger]
        call_ensures(*step, (a, x, y), r) && #[trigger] call_ensures(*step, (a, x, y), s) ==> r == s
}

/// The sum takes any two numbers, and always gives the same for the same.
pub open spec fn steady_sum<P: Fn(u32, u32) -> u32>(plus: &P) -> bool {
    &&& forall|a: u32, b: u32| #[trigger] call_requires(*plus, (a, b))
    &&& forall|a: u32, b: u32, r: u32, s: u32| #[trigger]
        call_ensures(*plus, (a, b), r) && #[trigger] call_ensures(*plus, (a, b), s) ==> r == s
}

/// What a steady step gives.
pub open spec fn stepped<F: Fn(u32, u32, u32) -> u32>(step: &F, acc: u32, x: u32, y: u32) -> u32 {
    choose|r: u32| call_ensures(*step, (acc, x, y), r)
}

/// What a steady sum gives.
pub open spec fn summed<P: Fn(u32, u32) -> u32>(plus: &P, a: u32, b: u32) -> u32 {
    choose|r: u32| call_ensures(*plus, (a, b), r)
}

/// The accumulator of lane `l` after so many chunks of one element per lane.
pub open spec fn lane<F: Fn(u32, u32, u32) -> u32>(step: &F, a: Seq<u32>, b: Seq<u32>, l: int, chunks: nat) -> u32
    decreases chunks,
{
    if chunks == 0 {
        0
    } else {
        let at = 8 * (chunks - 1) + l;
        stepped(step, lane(step, a, b, l, (chunks - 1) as nat), a[at], b[at])
    }
}

/// The sum of the first `l` lanes.
pub open spec fn lanes_total<F: Fn(u32, u32, u32) -> u32, P: Fn(u32, u32) -> u32>(
    step: &F,
    plus: &P,
    a: Seq<u32>,
    b: Seq<u32>,
    chunks: nat,
    l: nat,
) -> u32
    decreases l,
{
    if l == 0 {
        0
    } else {
        summed(plus, lanes_total(step, plus, a, b, chunks, (l - 1) as nat), lane(step, a, b, l - 1, chunks))
    }
}

/// The accumulator that started with `acc` after the elements `from..to`.
pub open spec fn tail<F: Fn(u32, u32, u32) -> u32>(
    step: &F,
    a: Seq<u32>,
    b: Seq<u32>,
    acc: u32,
    from: int,
    to: int,
) -> u32
    decreases to - from,
{
    if to <= from {
        acc
    } else {
        stepped(step, tail(step, a, b, acc, from, to - 1), a[to - 1], b[to - 1])
    }
}

/// The distance: whole chunks go to the lanes, the lanes are added up, and
/// what is left over follows element by element.
pub open spec fn distance_of<F: Fn(u32, u32, u32) -> u32, P: Fn(u32, u32) -> u32>(
    step: &F,
    plus: &P,
    a: Seq<u32>,
    b: Seq<u32>,
) -> u32 {
    let chunks = a.len() / 8;
    tail(step, a, b, lanes_total(step, plus, a, b, chunks, 8), 8 * chunks as int, a.len() as int)
}

/// Squared Euclidean distance, where `step` adds the square of a difference
/// to an accumulator, and `plus` adds two numbers. No sqrt: monotonic, so
/// rankings are unchanged.
pub fn l2_sq<F: Fn(u32, u32, u32) -> u32, P: Fn(u32, u32) -> u32>(a: &[u32], b: &[u32], step: &F, plus: &P) -> (d: u32)
    requires
        a@.len() == b@.len(),
        steady_step(step),
        steady_sum(plus),
    ensures
        d == distance_of(step, plus, a@, b@),
{
    assert(a@.len() == a.len());
    let chunks: usize = a.len() / LANES;
    let mut acc: [u32; 8] = [0u32; 8];
    let mut c: usize = 0;
    while c < chunks
        invariant
            c <= chunks,
            8 * chunks <= a@.len(),
            a@.len() <= usize::MAX,
            a@.len() == b@.len(),
            steady_step(step),
            acc@.len() == 8,
            forall|l: int| 0 <= l < 8 ==> #[trigger] acc@[l] == lane(step, a@, b@, l, c as nat),
        decreases chunks - c,
    {
        let mut l: usize = 0;
        while l < LANES
            invariant
                l <= 8,
                c < chunks,
                8 * chunks <= a@.len(),
                a@.len() <= usize::MAX,
                a@.len() == b@.len(),
                steady_step(step),
                acc@.len() == 8,
                forall|k: int| 0 <= k < l ==> #[trigger] acc@[k] == lane(step, a@, b@, k, (c + 1) as nat),
                forall|k: int| l <= k < 8 ==> #[trigger] acc@[k] == lane(step, a@, b@, k, c as nat),
            decreases 8 - l,
        {
            let at: usize = LANES * c + l;
            let before: u32 = acc[l];
            let r: u32 = step(before, a[at], b[at]);
            assert(call_ensures(*step, (before, a@[at as int], b@[at as int]), r));
            acc[l] = r;
            l += 1;
        }
        c += 1;
    }
    let mut sum: u32 = 0;
    let mut l: usize = 0;
    while l < LANES
        invariant
            l <= 8,
            steady_sum(plus),
            acc@.len() == 8,
            forall|k: int| 0 <= k < 8 ==> #[trigger] acc@[k] == lane(step, a@, b@, k, chunks as nat),
            sum == lanes_total(step, plus, a@, b@, chunks as nat, l as nat),
        decreases 8 - l,
    {
        let r: u32 = plus(sum, acc[l]);
        assert(call_ensures(*plus, (sum, acc@[l as int]), r));
        sum = r;
        l += 1;
    }
    let ghost total = sum;
    let mut i: usize = LANES * chunks;
    while i < a.len()
        invariant
            8 * chunks <= i <= a@.len(),
            a@.len() == b@.len(),
            steady_step(step),
            sum == tail(step, a@, b@, total, 8 * chunks as int, i as int),
        decreases a@.len() - i,
    {
        let r: u32 = step(sum, a[i], b[i]);
        assert(call_ensures(*step, (sum, a@[i as int], b@[i as int]), r));
        sum = r;
        i += 1;
    }
    sum
}

/// The square of an element's difference from itself adds nothing.
pub open spec fn self_cancels<F: Fn(u32, u32, u32) -> u32>(step: &F, a: Seq<u32>) -> bool {
    forall|i: int| 0 <= i < a.len() ==> stepped(step, 0, #[trigger] a[i], a[i]) == 0
}

/// Where the elements of a vector cancel out against themselves, as all
/// finite numbers do, it is at distance 0 from itself.
pub proof fn law_zero_for_identical<F: Fn(u32, u32, u32) -> u32, P: Fn(u32, u32) -> u32>(
    step: &F,
    plus: &P,
    a: Seq<u32>,
)
    requires
        self_cancels(step, a),
        summed(plus, 0, 0) == 0,
    ensures
        distance_of(step, plus, a, a) == 0,
{
    let chunks = a.len() / 8;
    assert forall|l: int| 0 <= l < 8 implies #[trigger] lane(step, a, a, l, chunks) == 0 by {
        lemma_lane_zero(step, a, l, chunks);
    }
    lemma_lanes_zero(step, plus, a, chunks, 8);
    lemma_tail_zero(step, a, 8 * chunks as int, a.len() as int);
}

/// Elements at the same place can be exchanged.
pub open spec fn exchangeable<F: Fn(u32, u32, u32) -> u32>(step: &F, a: Seq<u32>, b: Seq<u32>) -> bool {
    forall|i: int, acc: u32|
        0 <= i < a.len() ==> stepped(step, acc, a[i], b[i]) == #[trigger] stepped(step, acc, b[i], a[i])
}

/// Where the elements can be exchanged, as in the square of a difference, the
/// distance is the same both ways.
pub proof fn law_distance_is_symmetric<F: Fn(u32, u32, u32) -> u32, P: Fn(u32, u32) -> u32>(
    step: &F,
    plus: &P,
    a: Seq<u32>,
    b: Seq<u32>,
)
    requires
        a.len() == b.len(),
        exchangeable(step, a, b),
    ensures
        distance_of(step, plus, a, b) == distance_of(step, plus, b, a),
{
    let chunks = a.len() / 8;
    lemma_lanes_symmetric(step, plus, a, b, chunks, 8);
    let total = lanes_total(step, plus, a, b, chunks, 8);
    lemma_tail_symmetric(step, a, b, total, 8 * chunks as int, a.len() as int);
}

proof fn lemma_lane_symmetric<F: Fn(u32, u32, u32) -> u32>(step: &F, a: Seq<u32>, b: Seq<u32>, l: int, chunks: nat)
    requires
        exchangeable(step, a, b),
        0 <= l < 8,
        8 * chunks <= a.len(),
    ensures
        lane(step, a, b, l, chunks) == lane(step, b, a, l, chunks),
    decreases chunks,
{
    if chunks > 0 {
        lemma_lane_symmetric(step, a, b, l, (chunks - 1) as nat);
        let at = 8 * (chunks - 1) + l;
        let acc = lane(step, a, b, l, (chunks - 1) as nat);
        assert(stepped(step, acc, a[at], b[at]) == stepped(step, acc, b[at], a[at]));
    }
}

proof fn lemma_lanes_symmetric<F: Fn(u32, u32, u32) -> u32, P: Fn(u32, u32) -> u32>(
    step: &F,
    plus: &P,
    a: Seq<u32>,
    b: Seq<u32>,
    chunks: nat,
    l: nat,
)
    requires
        exchangeable(step, a, b),
        l <= 8,
        8 * chunks <= a.len(),
    ensures
        lanes_total(step, plus, a, b, chunks, l) == lanes_total(step, plus, b, a, chunks, l),
    decreases l,
{
    if l > 0 {
        lemma_lanes_symmetric(step, plus, a, b, chunks, (l - 1) as nat);
        lemma_lane_symmetric(step, a, b, l - 1, chunks);
    }
}

proof fn lemma_tail_symmetric<F: Fn(u32, u32, u32) -> u32>(
    step: &F,
    a: Seq<u32>,
    b: Seq<u32>,
    acc: u32,
    from: int,
    to: int,
)
    requires
        exchangeable(step, a, b),
        0 <= from,
        to <= a.len(),
    ensures
        tail(step, a, b, acc, from, to) == tail(step, b, a, acc, from, to),
    decreases to - from,
{
    if from < to {
        lemma_tail_symmetric(step, a, b, acc, from, to - 1);
        let before = tail(step, a, b, acc, from, to - 1);
        assert(stepped(step, before, a[to - 1], b[to - 1]) == stepped(step, before, b[to - 1], a[to - 1]));
    }
}

/// A number without a minus sign: no NaN, and not negative.
pub open spec fn is_magnitude(x: u32) -> bool {
    x < 0x8000_0000 && !is_nan(x)
}

/// Adding the square of an element's difference to a magnitude gives a
/// magnitude.
pub open spec fn steps_up<F: Fn(u32, u32, u32) -> u32>(step: &F, a: Seq<u32>, b: Seq<u32>) -> bool {
    forall|i: int, acc: u32|
        0 <= i < a.len() && is_magnitude(acc) ==> is_magnitude(#[trigger] stepped(step, acc, a[i], b[i]))
}

/// Where squares and sums of magnitudes are magnitudes, as for all finite
/// elements, the distance is a number and not negative.
pub proof fn law_distance_is_a_magnitude<F: Fn(u32, u32, u32) -> u32, P: Fn(u32, u32) -> u32>(
    step: &F,
    plus: &P,
    a: Seq<u32>,
    b: Seq<u32>,
)
    requires
        a.len() == b.len(),
        steps_up(step, a, b),
        forall|x: u32, y: u32| is_magnitude(x) && is_magnitude(y) ==> is_magnitude(#[trigger] summed(plus, x, y)),
    ensures
        is_magnitude(distance_of(step, plus, a, b)),
        at_most(0, distance_of(step, plus, a, b)),
{
    let chunks = a.len() / 8;
    lemma_lanes_magnitude(step, plus, a, b, chunks, 8);
    let total = lanes_total(step, plus, a, b, chunks, 8);
    lemma_tail_magnitude(step, a, b, total, 8 * chunks as int, a.len() as int);
}

proof fn lemma_lane_magnitude<F: Fn(u32, u32, u32) -> u32>(step: &F, a: Seq<u32>, b: Seq<u32>, l: int, chunks: nat)
    requires
        steps_up(step, a, b),
        0 <= l < 8,
        8 * chunks <= a.len(),
    ensures
        is_magnitude(lane(step, a, b, l, chunks)),
    decreases chunks,
{
    if chunks > 0 {
        lemma_lane_magnitude(step, a, b, l, (chunks - 1) as nat);
    }
}

proof fn lemma_lanes_magnitude<F: Fn(u32, u32, u32) -> u32, P: Fn(u32, u32) -> u32>(
    step: &F,
    plus: &P,
    a: Seq<u32>,
    b: Seq<u32>,
    chunks: nat,
    l: nat,
)
    requires
        steps_up(step, a, b),
        forall|x: u32, y: u32| is_magnitude(x) && is_magnitude(y) ==> is_magnitude(#[trigger] summed(plus, x, y)),
        l <= 8,
        8 * chunks <= a.len(),
    ensures
        is_magnitude(lanes_total(step, plus, a, b, chunks, l)),
    decreases l,
{
    if l > 0 {
        lemma_lanes_magnitude(step, plus, a, b, chunks, (l - 1) as nat);
        lemma_lane_magnitude(step, a, b, l - 1, chunks);
    }
}

proof fn lemma_tail_magnitude<F: Fn(u32, u32, u32) -> u32>(
    step: &F,
    a: Seq<u32>,
    b: Seq<u32>,
    acc: u32,
    from: int,
    to: int,
)
    requires
        steps_up(step, a, b),
        is_magnitude(acc),
        0 <= from,
        to <= a.len(),
    ensures
        is_magnitude(tail(step, a, b, acc, from, to)),
    decreases to - from,
{
    if from < to {
        lemma_tail_magnitude(step, a, b, acc, from, to - 1);
    }
}

proof fn lemma_lane_zero<F: Fn(u32, u32, u32) -> u32>(step: &F, a: Seq<u32>, l: int, chunks: nat)
    requires
        self_cancels(step, a),
        0 <= l < 8,
        8 * chunks <= a.len(),
    ensures
        lane(step, a, a, l, chunks) == 0,
    decreases chunks,
{
    if chunks > 0 {
        lemma_lane_zero(step, a, l, (chunks - 1) as nat);
        let x = a[8 * (chunks - 1) + l];
        assert(stepped(step, 0, x, x) == 0);
    }
}

proof fn lemma_lanes_zero<F: Fn(u32, u32, u32) -> u32, P: Fn(u32, u32) -> u32>(
    step: &F,
    plus: &P,
    a: Seq<u32>,
    chunks: nat,
    l: nat,
)
    requires
        l <= 8,
        summed(plus, 0, 0) == 0,
        forall|l: int| 0 <= l < 8 ==> #[trigger] lane(step, a, a, l, chunks) == 0,
    ensures
        lanes_total(step, plus, a, a, chunks, l) == 0,
    decreases l,
{
    if l > 0 {
        lemma_lanes_zero(step, plus, a, chunks, (l - 1) as nat);
        assert(lane(step, a, a, l - 1, chunks) == 0);
    }
}

proof fn lemma_tail_zero<F: Fn(u32, u32, u32) -> u32>(step: &F, a: Seq<u32>, from: int, to: int)
    requires
        self_cancels(step, a),
        0 <= from,
        to <= a.len(),
    ensures
        tail(step, a, a, 0, from, to) == 0,
    decreases to - from,
{
    if from < to {
        lemma_tail_zero(step, a, from, to - 1);
        assert(stepped(step, 0, a[to - 1], a[to - 1]) == 0);
    }
}

/// The sum of `g` over the places below `n`.
pub open spec fn sum_over(g: spec_fn(int) -> nat, n: nat) -> nat
    decreases n,
{
    if n == 0 {
        0
    } else {
        sum_over(g, (n - 1) as nat) + g(n - 1)
    }
}

/// Every element of both vectors takes part in the distance exactly once:
/// where the arithmetic is exact, the distance is the sum of what all places
/// contribute. `val` is the number that a bit pattern stands for, `g` what a
/// place contributes, and the arithmetic is exact up to `limit`.
pub proof fn law_every_element_counts_once<F: Fn(u32, u32, u32) -> u32, P: Fn(u32, u32) -> u32>(
    step: &F,
    plus: &P,
    a: Seq<u32>,
    b: Seq<u32>,
    val: spec_fn(u32) -> int,
    g: spec_fn(int) -> nat,
    limit: int,
)
    requires
        a.len() == b.len(),
        val(0) == 0,
        forall|i: int, acc: u32|
            0 <= i < a.len() && 0 <= val(acc) && val(acc) + g(i) <= limit ==> val(
                #[trigger] stepped(step, acc, a[i], b[i]),
            ) == val(acc) + g(i),
        forall|x: u32, y: u32|
            0 <= val(x) && 0 <= val(y) && val(x) + val(y) <= limit ==> val(#[trigger] summed(plus, x, y)) == val(x)
                + val(y),
        sum_over(g, a.len()) <= limit,
    ensures
        val(distance_of(step, plus, a, b)) == sum_over(g, a.len()),
{
    let chunks = a.len() / 8;
    let n = a.len();
    let total = lanes_total(step, plus, a, b, chunks, 8);
    lemma_columns(g, chunks);
    lemma_sum_grows(g, (8 * chunks) as nat, n);
    lemma_lanes_value(step, plus, a, b, val, g, limit, chunks, 8);
    lemma_tail_value(step, a, b, total, val, g, limit, 8 * chunks as int, n as int);
}

/// What the places of one lane contribute.
spec fn lane_sum(g: spec_fn(int) -> nat, l: int, chunks: nat) -> nat
    decreases chunks,
{
    if chunks == 0 {
        0
    } else {
        lane_sum(g, l, (chunks - 1) as nat) + g(8 * (chunks - 1) + l)
    }
}

/// What the places of the first `l` lanes contribute.
spec fn columns(g: spec_fn(int) -> nat, chunks: nat, l: nat) -> nat
    decreases l,
{
    if l == 0 {
        0
    } else {
        columns(g, chunks, (l - 1) as nat) + lane_sum(g, l - 1, chunks)
    }
}

proof fn lemma_sum_grows(g: spec_fn(int) -> nat, m: nat, n: nat)
    requires
        m <= n,
    ensures
        sum_over(g, m) <= sum_over(g, n),
    decreases n,
{
    if m < n {
        lemma_sum_grows(g, m, (n - 1) as nat);
    }
}

/// One more chunk adds its eight places.
proof fn lemma_columns_step(g: spec_fn(int) -> nat, c: nat, l: nat)
    ensures
        columns(g, c + 1, l) + sum_over(g, 8 * c) == columns(g, c, l) + sum_over(g, 8 * c + l),
    decreases l,
{
    if l > 0 {
        lemma_columns_step(g, c, (l - 1) as nat);
    }
}

/// Lane by lane or place by place, the sum is the same.
proof fn lemma_columns(g: spec_fn(int) -> nat, chunks: nat)
    ensures
        columns(g, chunks, 8) == sum_over(g, 8 * chunks),
    decreases chunks,
{
    if chunks == 0 {
        assert(lane_sum(g, 0, 0) == 0);
        reveal_with_fuel(columns, 9);
    } else {
        lemma_columns(g, (chunks - 1) as nat);
        lemma_columns_step(g, (chunks - 1) as nat, 8);
    }
}

proof fn lemma_columns_grow(g: spec_fn(int) -> nat, chunks: nat, k: nat, l: nat)
    requires
        k <= l,
    ensures
        columns(g, chunks, k) <= columns(g, chunks, l),
    decreases l,
{
    if k < l {
        lemma_columns_grow(g, chunks, k, (l - 1) as nat);
    }
}

proof fn lemma_lane_value<F: Fn(u32, u32, u32) -> u32>(
    step: &F,
    a: Seq<u32>,
    b: Seq<u32>,
    val: spec_fn(u32) -> int,
    g: spec_fn(int) -> nat,
    limit: int,
    l: int,
    chunks: nat,
)
    requires
        0 <= l < 8,
        8 * chunks <= a.len(),
        val(0) == 0,
        forall|i: int, acc: u32|
            0 <= i < a.len() && 0 <= val(acc) && val(acc) + g(i) <= limit ==> val(
                #[trigger] stepped(step, acc, a[i], b[i]),
            ) == val(acc) + g(i),
        lane_sum(g, l, chunks) <= limit,
    ensures
        val(lane(step, a, b, l, chunks)) == lane_sum(g, l, chunks),
    decreases chunks,
{
    if chunks > 0 {
        lemma_lane_value(step, a, b, val, g, limit, l, (chunks - 1) as nat);
        let at = 8 * (chunks - 1) + l;
        let acc = lane(step, a, b, l, (chunks - 1) as nat);
        assert(val(stepped(step, acc, a[at], b[at])) == val(acc) + g(at));
    }
}

proof fn lemma_lanes_value<F: Fn(u32, u32, u32) -> u32, P: Fn(u32, u32) -> u32>(
    step: &F,
    plus: &P,
    a: Seq<u32>,
    b: Seq<u32>,
    val: spec_fn(u32) -> int,
    g: spec_fn(int) -> nat,
    limit: int,
    chunks: nat,
    l: nat,
)
    requires
        l <= 8,
        8 * chunks <= a.len(),
        val(0) == 0,
        forall|i: int, acc: u32|
            0 <= i < a.len() && 0 <= val(acc) && val(acc) + g(i) <= limit ==> val(
                #[trigger] stepped(step, acc, a[i], b[i]),
            ) == val(acc) + g(i),
        forall|x: u32, y: u32|
            0 <= val(x) && 0 <= val(y) && val(x) + val(y) <= limit ==> val(#[trigger] summed(plus, x, y)) == val(x)
                + val(y),
        columns(g, chunks, 8) <= limit,
    ensures
        val(lanes_total(step, plus, a, b, chunks, l)) == columns(g, chunks, l),
    decreases l,
{
    if l > 0 {
        lemma_columns_grow(g, chunks, l, 8);
        lemma_lanes_value(step, plus, a, b, val, g, limit, chunks, (l - 1) as nat);
        lemma_lane_value(step, a, b, val, g, limit, l - 1, chunks);
        let x = lanes_total(step, plus, a, b, chunks, (l - 1) as nat);
        let y = lane(step, a, b, l - 1, chunks);
        assert(val(summed(plus, x, y)) == val(x) + val(y));
    }
}

proof fn lemma_tail_value<F: Fn(u32, u32, u32) -> u32>(
    step: &F,
    a: Seq<u32>,
    b: Seq<u32>,
    acc: u32,
    val: spec_fn(u32) -> int,
    g: spec_fn(int) -> nat,
    limit: int,
    from: int,
    to: int,
)
    requires
        0 <= from <= to <= a.len(),
        val(acc) == sum_over(g, from as nat),
        forall|i: int, acc: u32|
            0 <= i < a.len() && 0 <= val(acc) && val(acc) + g(i) <= limit ==> val(
                #[trigger] stepped(step, acc, a[i], b[i]),
            ) == val(acc) + g(i),
        sum_over(g, to as nat) <= limit,
    ensures
        val(tail(step, a, b, acc, from, to)) == sum_over(g, to as nat),
    decreases to - from,
{
    if from < to {
        lemma_tail_value(step, a, b, acc, val, g, limit, from, to - 1);
        let before = tail(step, a, b, acc, from, to - 1);
        assert(val(stepped(step, before, a[to - 1], b[to - 1])) == val(before) + g(to - 1));
    }
}

/// An element that does not complete a chunk is added to the distance of the
/// elements before it.
pub proof fn law_leftover_elements_follow<F: Fn(u32, u32, u32) -> u32, P: Fn(u32, u32) -> u32>(
    step: &F,
    plus: &P,
    a: Seq<u32>,
    b: Seq<u32>,
    x: u32,
    y: u32,
)
    requires
        a.len() == b.len(),
        (a.len() + 1) % 8 != 0,
    ensures
        distance_of(step, plus, a.push(x), b.push(y)) == stepped(step, distance_of(step, plus, a, b), x, y),
{
    let chunks = a.len() / 8;
    let (la, lb) = (a.push(x), b.push(y));
    assert(la.len() / 8 == chunks);
    lemma_lanes_prefix(step, plus, a, b, la, lb, chunks, 8);
    let total = lanes_total(step, plus, a, b, chunks, 8);
    lemma_tail_prefix(step, a, b, la, lb, total, 8 * chunks as int, a.len() as int);
}

/// Elements behind the chunks do not matter to the lanes.
proof fn lemma_lane_prefix<F: Fn(u32, u32, u32) -> u32>(
    step: &F,
    a: Seq<u32>,
    b: Seq<u32>,
    la: Seq<u32>,
    lb: Seq<u32>,
    l: int,
    chunks: nat,
)
    requires
        0 <= l < 8,
        8 * chunks <= a.len() <= la.len(),
        a.len() == b.len(),
        la.len() == lb.len(),
        forall|i: int| 0 <= i < a.len() ==> la[i] == a[i] && lb[i] == b[i],
    ensures
        lane(step, la, lb, l, chunks) == lane(step, a, b, l, chunks),
    decreases chunks,
{
    if chunks > 0 {
        lemma_lane_prefix(step, a, b, la, lb, l, (chunks - 1) as nat);
        let at = 8 * (chunks - 1) + l;
        assert(la[at] == a[at] && lb[at] == b[at]);
    }
}

proof fn lemma_lanes_prefix<F: Fn(u32, u32, u32) -> u32, P: Fn(u32, u32) -> u32>(
    step: &F,
    plus: &P,
    a: Seq<u32>,
    b: Seq<u32>,
    la: Seq<u32>,
    lb: Seq<u32>,
    chunks: nat,
    l: nat,
)
    requires
        l <= 8,
        8 * chunks <= a.len() <= la.len(),
        a.len() == b.len(),
        la.len() == lb.len(),
        forall|i: int| 0 <= i < a.len() ==> la[i] == a[i] && lb[i] == b[i],
    ensures
        lanes_total(step, plus, la, lb, chunks, l) == lanes_total(step, plus, a, b, chunks, l),
    decreases l,
{
    if l > 0 {
        lemma_lanes_prefix(step, plus, a, b, la, lb, chunks, (l - 1) as nat);
        lemma_lane_prefix(step, a, b, la, lb, l - 1, chunks);
    }
}

proof fn lemma_tail_prefix<F: Fn(u32, u32, u32) -> u32>(
    step: &F,
    a: Seq<u32>,
    b: Seq<u32>,
    la: Seq<u32>,
    lb: Seq<u32>,
    acc: u32,
    from: int,
    to: int,
)
    requires
        0 <= from,
        to <= a.len() <= la.len(),
        a.len() == b.len(),
        la.len() == lb.len(),
        forall|i: int| 0 <= i < a.len() ==> la[i] == a[i] && lb[i] == b[i],
    ensures
        tail(step, la, lb, acc, from, to) == tail(step, a, b, acc, from, to),
    decreases to - from,
{
    if from < to {
        lemma_tail_prefix(step, a, b, la, lb, acc, from, to - 1);
        assert(la[to - 1] == a[to - 1] && lb[to - 1] == b[to - 1]);
    }
}

/// The accumulators after one more chunk of eight elements: each goes on with
/// the element at its own place.
pub open spec fn lanes_after<F: Fn(u32, u32, u32) -> u32>(
    step: &F,
    lanes: Seq<u32>,
    xs: Seq<u32>,
    ys: Seq<u32>,
) -> Seq<u32> {
    Seq::new(8, |l: int| stepped(step, lanes[l], xs[l], ys[l]))
}

/// Over whole chunks there are eight accumulators, which start at 0, go on
/// chunk by chunk, and are added up from the first to the last at the end.
/// `lanes` holds them before and after each chunk.
pub proof fn law_chunks_feed_eight_lanes<F: Fn(u32, u32, u32) -> u32, P: Fn(u32, u32) -> u32>(
    step: &F,
    plus: &P,
    a: Seq<u32>,
    b: Seq<u32>,
    chunks: nat,
    lanes: Seq<Seq<u32>>,
)
    requires
        a.len() == b.len(),
        a.len() == 8 * chunks,
        lanes.len() == chunks + 1,
        lanes[0] == seq![0u32, 0u32, 0u32, 0u32, 0u32, 0u32, 0u32, 0u32],
        forall|c: int|
            0 <= c < chunks ==> #[trigger] lanes[c + 1] == lanes_after(
                step,
                lanes[c],
                a.subrange(8 * c, 8 * c + 8),
                b.subrange(8 * c, 8 * c + 8),
            ),
    ensures
        ({
            let s = lanes[chunks as int];
            let s01 = summed(plus, summed(plus, 0, s[0]), s[1]);
            let s23 = summed(plus, summed(plus, s01, s[2]), s[3]);
            let s45 = summed(plus, summed(plus, s23, s[4]), s[5]);
            distance_of(step, plus, a, b) == summed(plus, summed(plus, s45, s[6]), s[7])
        }),
{
    assert(a.len() / 8 == chunks);
    assert forall|l: int| 0 <= l < 8 implies lane(step, a, b, l, chunks) == #[trigger] lanes[chunks as int][l] by {
        lemma_lane_state(step, a, b, chunks, lanes, l, chunks);
    }
    reveal_with_fuel(lanes_total, 9);
}

proof fn lemma_lane_state<F: Fn(u32, u32, u32) -> u32>(
    step: &F,
    a: Seq<u32>,
    b: Seq<u32>,
    chunks: nat,
    lanes: Seq<Seq<u32>>,
    l: int,
    c: nat,
)
    requires
        0 <= l < 8,
        c <= chunks,
        a.len() == b.len(),
        a.len() == 8 * chunks,
        lanes.len() == chunks + 1,
        lanes[0] == seq![0u32, 0u32, 0u32, 0u32, 0u32, 0u32, 0u32, 0u32],
        forall|c: int|
            0 <= c < chunks ==> #[trigger] lanes[c + 1] == lanes_after(
                step,
                lanes[c],
                a.subrange(8 * c, 8 * c + 8),
                b.subrange(8 * c, 8 * c + 8),
            ),
    ensures
        lane(step, a, b, l, c) == lanes[c as int][l],
    decreases c,
{
    if c > 0 {
        lemma_lane_state(step, a, b, chunks, lanes, l, (c - 1) as nat);
        assert(lanes[(c - 1) + 1] == lanes_after(
            step,
            lanes[c - 1],
            a.subrange(8 * (c - 1), 8 * (c - 1) + 8),
            b.subrange(8 * (c - 1), 8 * (c - 1) + 8),
        ));
    }
}

/// What a steady step or sum is said to give is what a call of it gives, for
/// these arguments in this order.
pub proof fn law_kernels_give_what_they_return<F: Fn(u32, u32, u32) -> u32, P: Fn(u32, u32) -> u32>(
    step: &F,
    plus: &P,
    acc: u32,
    x: u32,
    y: u32,
    r: u32,
)
    requires
        steady_step(step),
        steady_sum(plus),
    ensures
        call_ensures(*step, (acc, x, y), r) ==> stepped(step, acc, x, y) == r,
        call_ensures(*plus, (x, y), r) ==> summed(plus, x, y) == r,
{
}

/// What `l2_sq` returns for two vectors is the sum over all their elements,
/// each counted once, wherever steps and sums add up without loss.
pub proof fn law_returned_distance_is_of_all_elements<F: Fn(u32, u32, u32) -> u32, P: Fn(u32, u32) -> u32>(
    step: &F,
    plus: &P,
    a: &[u32],
    b: &[u32],
    d: u32,
    val: spec_fn(u32) -> int,
    g: spec_fn(int) -> nat,
    limit: int,
)
    requires
        call_ensures(l2_sq::<F, P>, (a, b, step, plus), d),
        a@.len() == b@.len(),
        val(0) == 0,
        forall|i: int, acc: u32|
            0 <= i < a@.len() && 0 <= val(acc) && val(acc) + g(i) <= limit ==> val(
                #[trigger] stepped(step, acc, a@[i], b@[i]),
            ) == val(acc) + g(i),
        forall|x: u32, y: u32|
            0 <= val(x) && 0 <= val(y) && val(x) + val(y) <= limit ==> val(#[trigger] summed(plus, x, y)) == val(x)
                + val(y),
        sum_over(g, a@.len()) <= limit,
    ensures
        val(d) == sum_over(g, a@.len()),
{
    law_every_element_counts_once(step, plus, a@, b@, val, g, limit);
}

} // verus!
