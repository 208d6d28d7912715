//! What the evaluation harness decides: which settings to sweep, over how
//! many queries, and what of the results counts.

use vstd::arithmetic::power::{lemma_pow0, lemma_pow_positive, pow};
use vstd::prelude::*;
use vstd::string::*;

use crate::dataset::lemma_row_bounds;

verus! {

/// Whitespace as Unicode defines it.
pub open spec fn is_space(c: char) -> bool {
    let x = c as u32;
    ||| 0x9 <= x <= 0xd
    ||| x == 0x20
    ||| x == 0x85
    ||| x == 0xa0
    ||| x == 0x1680
    ||| 0x2000 <= x <= 0x200a
    ||| x == 0x2028
    ||| x == 0x2029
    ||| x == 0x202f
    ||| x == 0x205f
    ||| x == 0x3000
}

/// The pieces of a text between its commas.
pub open spec fn segments(s: Seq<char>) -> Seq<Seq<char>>
    decreases s.len(),
{
    if s.len() == 0 {
        seq![Seq::empty()]
    } else {
        let before = segments(s.drop_last());
        if s.last() == ',' {
            before.push(Seq::empty())
        } else {
            before.drop_last().push(before.last().push(s.last()))
        }
    }
}

/// A text without the whitespace at its start.
pub open spec fn trim_start(s: Seq<char>) -> Seq<char>
    decreases s.len(),
{
    if s.len() > 0 && is_space(s.first()) {
        trim_start(s.drop_first())
    } else {
        s
    }
}

/// A text without the whitespace at its end.
pub open spec fn trim_end(s: Seq<char>) -> Seq<char>
    decreases s.len(),
{
    if s.len() > 0 && is_space(s.last()) {
        trim_end(s.drop_last())
    } else {
        s
    }
}

/// Why a text is not a number.
#[derive(Debug, Clone, Copy, PartialEq, Eq)]
pub enum NumberError {
    Empty,
    InvalidDigit,
    Overflow,
}

/// The value of a digit.
pub open spec fn digit(c: char) -> int {
    c as u32 - 0x30
}

/// The number that a row of digits stands for. What comes first, a character
/// that is no digit or a number that is too large, decides the error.
pub open spec fn digits_value(s: Seq<char>) -> Result<usize, NumberError>
    decreases s.len(),
{
    if s.len() == 0 {
        Ok(0)
    } else {
        match digits_value(s.drop_last()) {
            Err(e) => Err(e),
            Ok(v) => {
                let d = digit(s.last());
                if d < 0 || d > 9 {
                    Err(NumberError::InvalidDigit)
                } else if v * 10 + d > usize::MAX {
                    Err(NumberError::Overflow)
                } else {
                    Ok((v * 10 + d) as usize)
                }
            },
        }
    }
}

/// The number that a text stands for: digits, after a plus sign if there is
/// one.
pub open spec fn number(s: Seq<char>) -> Result<usize, NumberError> {
    if s.len() == 0 {
        Err(NumberError::Empty)
    } else if s.len() > 1 && s[0] == '+' {
        digits_value(s.drop_first())
    } else {
        digits_value(s)
    }
}

/// A piece of a list that is not a number: which piece, and why.
#[derive(Debug, Clone, Copy, PartialEq, Eq)]
pub struct EfError {
    pub segment: usize,
    pub kind: NumberError,
}

/// The numbers of the first `n` pieces, or the first piece that is none.
pub open spec fn numbers(pieces: Seq<Seq<char>>, n: nat) -> Result<Seq<usize>, EfError>
    decreases n,
{
    if n == 0 {
        Ok(Seq::empty())
    } else {
        match numbers(pieces, (n - 1) as nat) {
            Err(e) => Err(e),
            Ok(v) => match number(trim_end(trim_start(pieces[n - 1]))) {
                Ok(x) => Ok(v.push(x)),
                Err(kind) => Err(EfError { segment: (n - 1) as usize, kind }),
            },
        }
    }
}

fn space(c: char) -> (b: bool)
    ensures
        b == is_space(c),
{
    let x: u32 = c as u32;
    (x >= 0x9 && x <= 0xd) || x == 0x20 || x == 0x85 || x == 0xa0 || x == 0x1680 || (x >= 0x2000 && x <= 0x200a) || x
        == 0x2028 || x == 0x2029 || x == 0x202f || x == 0x205f || x == 0x3000
}

/// Splits a text at its commas.
fn split(s: &str) -> (pieces: Vec<Vec<char>>)
    ensures
        pieces@.len() == segments(s@).len(),
        forall|i: int| 0 <= i < pieces@.len() ==> (#[trigger] pieces@[i])@ == segments(s@)[i],
{
    let n: usize = s.unicode_len();
    let mut pieces: Vec<Vec<char>> = Vec::new();
    let mut current: Vec<char> = Vec::new();
    let mut i: usize = 0;
    assert(s@.take(0) =~= Seq::empty());
    while i < n
        invariant
            i <= n,
            n == s@.len(),
            segments(s@.take(i as int)).len() == pieces@.len() + 1,
            forall|k: int| 0 <= k < pieces@.len() ==> (#[trigger] pieces@[k])@ == segments(s@.take(i as int))[k],
            current@ == segments(s@.take(i as int)).last(),
        decreases n - i,
    {
        let c: char = s.get_char(i);
        let ghost before = segments(s@.take(i as int));
        let ghost after = segments(s@.take(i + 1));
        let ghost done = pieces@;
        proof {
            assert(s@.take(i + 1).drop_last() =~= s@.take(i as int));
            assert(s@.take(i + 1).last() == c);
        }
        if c == ',' {
            pieces.push(current);
            current = Vec::new();
            proof {
                assert(after == before.push(Seq::empty()));
                assert forall|k: int| 0 <= k < pieces@.len() implies (#[trigger] pieces@[k])@ == after[k] by {
                    if k < done.len() {
                        assert(pieces@[k] == done[k]);
                    }
                }
            }
        } else {
            current.push(c);
            proof {
                assert(after == before.drop_last().push(before.last().push(c)));
                assert forall|k: int| 0 <= k < pieces@.len() implies (#[trigger] pieces@[k])@ == after[k] by {
                    assert(pieces@[k]@ == before[k]);
                }
            }
        }
        i += 1;
    }
    assert(s@.take(i as int) =~= s@);
    let ghost done = pieces@;
    let ghost all = segments(s@);
    pieces.push(current);
    proof {
        assert forall|k: int| 0 <= k < pieces@.len() implies (#[trigger] pieces@[k])@ == all[k] by {
            if k < done.len() {
                assert(pieces@[k] == done[k]);
            }
        }
    }
    pieces
}

/// The number that a piece stands for, whitespace aside.
fn parse_piece(piece: &Vec<char>) -> (r: Result<usize, NumberError>)
    ensures
        r == number(trim_end(trim_start(piece@))),
{
    let mut lo: usize = 0;
    let mut hi: usize = piece.len();
    assert(piece@.skip(0) =~= piece@);
    while lo < hi && space(piece[lo])
        invariant
            lo <= hi,
            hi == piece@.len(),
            trim_start(piece@.skip(lo as int)) == trim_start(piece@),
        decreases hi - lo,
    {
        proof {
            let rest = piece@.skip(lo as int);
            assert(rest.first() == piece@[lo as int]);
            assert(rest.drop_first() =~= piece@.skip(lo + 1));
        }
        lo += 1;
    }
    proof {
        let rest = piece@.skip(lo as int);
        if lo < hi {
            assert(rest.first() == piece@[lo as int]);
        }
        assert(trim_start(piece@) == rest);
        assert(piece@.subrange(lo as int, hi as int) =~= rest);
    }
    let ghost started = trim_start(piece@);
    while hi > lo && space(piece[hi - 1])
        invariant
            lo <= hi <= piece@.len(),
            trim_end(piece@.subrange(lo as int, hi as int)) == trim_end(started),
        decreases hi - lo,
    {
        proof {
            let rest = piece@.subrange(lo as int, hi as int);
            assert(rest.last() == piece@[hi - 1]);
            assert(rest.drop_last() =~= piece@.subrange(lo as int, hi - 1));
        }
        hi -= 1;
    }
    let ghost text = piece@.subrange(lo as int, hi as int);
    proof {
        if hi > lo {
            assert(text.last() == piece@[hi - 1]);
        }
        assert(trim_end(started) == text);
    }
    if lo == hi {
        return Err(NumberError::Empty);
    }
    assert(text[0] == piece@[lo as int]);
    let ghost digits = if text.len() > 1 && text[0] == '+' { text.drop_first() } else { text };
    if hi - lo > 1 && piece[lo] == '+' {
        lo += 1;
    }
    assert(piece@.subrange(lo as int, hi as int) =~= digits);
    let mut v: usize = 0;
    let mut i: usize = lo;
    assert(digits.take(0) =~= Seq::empty());
    while i < hi
        invariant
            lo <= i <= hi <= piece@.len(),
            digits == piece@.subrange(lo as int, hi as int),
            digits_value(digits) == number(trim_end(trim_start(piece@))),
            digits_value(digits.take(i - lo)) == Ok::<usize, NumberError>(v),
        decreases hi - i,
    {
        let c: char = piece[i];
        let x: u32 = c as u32;
        proof {
            let next = digits.take(i + 1 - lo);
            assert(next.drop_last() =~= digits.take(i - lo));
            assert(next.last() == c);
            lemma_digits_error(digits, i + 1 - lo);
        }
        if x < 0x30 || x > 0x39 {
            return Err(NumberError::InvalidDigit);
        }
        let d: usize = (x - 0x30) as usize;
        if v > (usize::MAX - d) / 10 {
            return Err(NumberError::Overflow);
        }
        v = v * 10 + d;
        i += 1;
    }
    assert(digits.take(i - lo) =~= digits);
    Ok(v)
}

/// An error in the first digits is the error of the whole.
proof fn lemma_digits_error(s: Seq<char>, i: int)
    requires
        0 <= i <= s.len(),
    ensures
        digits_value(s.take(i)) is Err ==> digits_value(s) == digits_value(s.take(i)),
    decreases s.len(),
{
    if i == s.len() {
        assert(s.take(i) =~= s);
    } else {
        lemma_digits_error(s.drop_last(), i);
        assert(s.drop_last().take(i) =~= s.take(i));
    }
}

/// An error in the first pieces is the error of the whole.
proof fn lemma_numbers_error(pieces: Seq<Seq<char>>, i: nat, n: nat)
    requires
        i <= n,
    ensures
        numbers(pieces, i) is Err ==> numbers(pieces, n) == numbers(pieces, i),
    decreases n,
{
    if i < n {
        lemma_numbers_error(pieces, i, (n - 1) as nat);
    }
}

/// Reads a comma-separated list of numbers.
pub fn parse_efs(efs: &str) -> (r: Result<Vec<usize>, EfError>)
    ensures
        match numbers(segments(efs@), segments(efs@).len()) {
            Ok(v) => r is Ok && r->Ok_0@ == v,
            Err(e) => r is Err && r->Err_0 == e,
        },
{
    let pieces = split(efs);
    let ghost all = segments(efs@);
    let mut out: Vec<usize> = Vec::new();
    let mut i: usize = 0;
    while i < pieces.len()
        invariant
            i <= pieces@.len(),
            all == segments(efs@),
            pieces@.len() == all.len(),
            forall|k: int| 0 <= k < pieces@.len() ==> (#[trigger] pieces@[k])@ == all[k],
            numbers(all, i as nat) == Ok::<Seq<usize>, EfError>(out@),
        decreases pieces@.len() - i,
    {
        assert(pieces@[i as int]@ == all[i as int]);
        proof {
            lemma_numbers_error(all, (i + 1) as nat, all.len());
        }
        match parse_piece(&pieces[i]) {
            Ok(x) => {
                out.push(x);
            },
            Err(kind) => {
                return Err(EfError { segment: i, kind });
            },
        }
        i += 1;
    }
    Ok(out)
}

/// The settings for one beam width: the pool sizes that hold `k` results.
pub open spec fn runs_for(w: usize, efs: Seq<usize>, k: usize, n: nat) -> Seq<(usize, usize)>
    decreases n,
{
    if n == 0 {
        Seq::empty()
    } else {
        let before = runs_for(w, efs, k, (n - 1) as nat);
        if efs[n - 1] < k {
            before
        } else {
            before.push((w, efs[n - 1]))
        }
    }
}

/// The settings for the first `n` beam widths, in order.
pub open spec fn runs(ws: Seq<usize>, efs: Seq<usize>, k: usize, n: nat) -> Seq<(usize, usize)>
    decreases n,
{
    if n == 0 {
        Seq::empty()
    } else {
        runs(ws, efs, k, (n - 1) as nat) + runs_for(ws[n - 1], efs, k, efs.len())
    }
}

/// The settings of a sweep, as beam width and pool size: every pool size for
/// every beam width, but for the pools that cannot hold `k` results.
pub fn plan_sweep(ws: &Vec<usize>, efs: &Vec<usize>, k: usize) -> (plan: Vec<(usize, usize)>)
    ensures
        plan@ == runs(ws@, efs@, k, ws@.len()),
{
    let mut plan: Vec<(usize, usize)> = Vec::new();
    let mut i: usize = 0;
    while i < ws.len()
        invariant
            i <= ws@.len(),
            plan@ == runs(ws@, efs@, k, i as nat),
        decreases ws@.len() - i,
    {
        let ghost before = plan@;
        let mut j: usize = 0;
        assert(plan@ =~= before + runs_for(ws@[i as int], efs@, k, 0));
        while j < efs.len()
            invariant
                i < ws@.len(),
                j <= efs@.len(),
                plan@ == before + runs_for(ws@[i as int], efs@, k, j as nat),
            decreases efs@.len() - j,
        {
            if efs[j] >= k {
                plan.push((ws[i], efs[j]));
            }
            j += 1;
            assert(plan@ =~= before + runs_for(ws@[i as int], efs@, k, j as nat));
        }
        i += 1;
    }
    plan
}

/// Every setting of a sweep can hold the results.
pub proof fn law_sweep_pools_hold_the_results(ws: Seq<usize>, efs: Seq<usize>, k: usize, n: nat, i: int)
    requires
        n <= ws.len(),
        0 <= i < runs(ws, efs, k, n).len(),
    ensures
        runs(ws, efs, k, n)[i].1 >= k,
        efs.contains(runs(ws, efs, k, n)[i].1),
        ws.contains(runs(ws, efs, k, n)[i].0),
    decreases n,
{
    if n > 0 {
        let before = runs(ws, efs, k, (n - 1) as nat);
        if i < before.len() {
            law_sweep_pools_hold_the_results(ws, efs, k, (n - 1) as nat, i);
        } else {
            lemma_runs_for(ws[n - 1], efs, k, efs.len(), i - before.len());
            assert(ws.contains(ws[n - 1]));
        }
    }
}

proof fn lemma_runs_for(w: usize, efs: Seq<usize>, k: usize, n: nat, i: int)
    requires
        n <= efs.len(),
        0 <= i < runs_for(w, efs, k, n).len(),
    ensures
        runs_for(w, efs, k, n)[i].0 == w,
        runs_for(w, efs, k, n)[i].1 >= k,
        efs.contains(runs_for(w, efs, k, n)[i].1),
    decreases n,
{
    if n > 0 {
        let before = runs_for(w, efs, k, (n - 1) as nat);
        if i < before.len() {
            lemma_runs_for(w, efs, k, (n - 1) as nat, i);
        } else {
            assert(efs.contains(efs[n - 1]));
        }
    }
}

/// How many queries to run: as many as asked for, or all, but no more than
/// there are.
pub fn query_limit(asked: Option<usize>, available: usize) -> (n: usize)
    ensures
        n == (match asked {
            Some(a) => if a < available { a } else { available },
            None => available,
        }),
{
    match asked {
        Some(a) => if a < available {
            a
        } else {
            available
        },
        None => available,
    }
}

/// The ids of results.
pub fn ids_of(results: &Vec<(u32, u32)>) -> (ids: Vec<u32>)
    ensures
        ids@ == Seq::new(results@.len(), |i: int| results@[i].1),
{
    let mut ids: Vec<u32> = Vec::new();
    let mut i: usize = 0;
    while i < results.len()
        invariant
            i <= results@.len(),
            ids@ == Seq::new(i as nat, |i: int| results@[i].1),
        decreases results@.len() - i,
    {
        ids.push(results[i].1);
        i += 1;
        assert(ids@ =~= Seq::new(i as nat, |i: int| results@[i].1));
    }
    ids
}

/// Where the graph of a run comes from.
#[derive(Debug, Clone, Copy, PartialEq, Eq)]
pub enum GraphPlan {
    /// From the cache file.
    Load,
    /// It is built, and kept in the cache file if there is to be one.
    Build { save: bool },
}

/// A graph cache is loaded if it is named and exists; otherwise the graph is
/// built, and saved where a cache is named.
pub fn plan_graph(named: bool, exists: bool) -> (plan: GraphPlan)
    ensures
        named && exists ==> plan == GraphPlan::Load,
        !(named && exists) ==> plan == (GraphPlan::Build { save: named }),
{
    if named && exists {
        GraphPlan::Load
    } else {
        GraphPlan::Build { save: named }
    }
}

/// Where the disk index of a run comes from.
#[derive(Debug, Clone, Copy, PartialEq, Eq)]
pub enum IndexPlan {
    /// From its file.
    Open,
    /// It is packed from the graph cache first.
    Pack,
    /// There is neither an index nor a graph to pack.
    MissingGraph,
}

/// An index that exists is opened; one that does not is packed from the
/// graph, which has to exist.
pub fn plan_index(index_exists: bool, graph_exists: bool) -> (plan: IndexPlan)
    ensures
        plan == (if index_exists {
            IndexPlan::Open
        } else if graph_exists {
            IndexPlan::Pack
        } else {
            IndexPlan::MissingGraph
        }),
{
    if index_exists {
        IndexPlan::Open
    } else if graph_exists {
        IndexPlan::Pack
    } else {
        IndexPlan::MissingGraph
    }
}

/// Why a run does not start.
#[derive(Debug, Clone, Copy, PartialEq, Eq)]
pub enum RunError {
    /// More results are asked for than the ground truth has.
    DepthExceeded { k: usize, depth: usize },
    /// The graph or the index is of another dataset.
    NodeCount { nodes: u64, count: usize },
}

/// No more results can be judged than the ground truth has per query.
pub fn check_depth(k: usize, depth: usize) -> (r: Result<(), RunError>)
    ensures
        k <= depth ==> r is Ok,
        k > depth ==> r == Err::<(), RunError>(RunError::DepthExceeded { k, depth }),
{
    if k > depth {
        Err(RunError::DepthExceeded { k, depth })
    } else {
        Ok(())
    }
}

/// A graph or an index has to have one node per vector.
pub fn check_nodes(nodes: u64, count: usize) -> (r: Result<(), RunError>)
    ensures
        nodes == count ==> r is Ok,
        nodes != count ==> r == Err::<(), RunError>(RunError::NodeCount { nodes, count }),
{
    if nodes != count as u64 {
        Err(RunError::NodeCount { nodes, count })
    } else {
        Ok(())
    }
}

/// The sum of counts.
pub open spec fn sum_of(counts: Seq<usize>) -> nat
    decreases counts.len(),
{
    if counts.len() == 0 {
        0
    } else {
        sum_of(counts.drop_last()) + counts.last() as nat
    }
}

/// Adds up the reads or hops of all queries, for their mean.
pub fn total(counts: &Vec<usize>) -> (sum: u128)
    ensures
        sum == sum_of(counts@),
{
    let mut sum: u128 = 0;
    let mut i: usize = 0;
    assert(counts@.take(0) =~= Seq::empty());
    while i < counts.len()
        invariant
            i <= counts@.len(),
            sum == sum_of(counts@.take(i as int)),
            sum <= i * usize::MAX,
        decreases counts@.len() - i,
    {
        proof {
            assert(counts@.take(i + 1).drop_last() =~= counts@.take(i as int));
            assert(i * usize::MAX + usize::MAX == (i + 1) * usize::MAX) by (nonlinear_arith);
            assert((i + 1) * usize::MAX <= u64::MAX * u64::MAX) by (nonlinear_arith)
                requires
                    i + 1 <= usize::MAX,
                    usize::MAX <= u64::MAX,
            ;
        }
        sum += counts[i] as u128;
        i += 1;
    }
    assert(counts@.take(i as int) =~= counts@);
    sum
}

/// The sweep is complete and has no run twice: with the pools that hold `k`
/// results in the order of the list, every beam width gets each of them, one
/// width after the other.
pub proof fn law_sweep_is_complete(ws: Seq<usize>, efs: Seq<usize>, k: usize)
    ensures
        ({
            let plan = runs(ws, efs, k, ws.len());
            let fit = efs.filter(|ef: usize| ef >= k);
            &&& plan.len() == ws.len() * fit.len()
            &&& forall|i: int, m: int|
                0 <= i < ws.len() && 0 <= m < fit.len() ==> #[trigger] plan[i * fit.len() + m] == (ws[i], fit[m])
            &&& forall|i: int, j: int|
                0 <= i < ws.len() && 0 <= j < efs.len() && efs[j] >= k ==> plan.contains(
                    (#[trigger] ws[i], #[trigger] efs[j]),
                )
        }),
{
    let plan = runs(ws, efs, k, ws.len());
    let fit = efs.filter(|ef: usize| ef >= k);
    lemma_runs_places(ws, efs, k, ws.len());
    assert forall|i: int, j: int| 0 <= i < ws.len() && 0 <= j < efs.len() && efs[j] >= k implies plan.contains(
        (#[trigger] ws[i], #[trigger] efs[j]),
    ) by {
        lemma_fit_holds(efs, k, j);
        let m = choose|m: int| 0 <= m < fit.len() && fit[m] == efs[j];
        lemma_row_bounds(i, fit.len() as int, ws.len() as int);
        assert(plan[i * fit.len() + m] == (ws[i], fit[m]));
    }
}

proof fn lemma_fit_holds(efs: Seq<usize>, k: usize, j: int)
    requires
        0 <= j < efs.len(),
        efs[j] >= k,
    ensures
        efs.filter(|ef: usize| ef >= k).contains(efs[j]),
    decreases efs.len(),
{
    reveal(Seq::filter);
    let fits = |ef: usize| ef >= k;
    let init = efs.drop_last();
    let all = efs.filter(fits);
    let before = init.filter(fits);
    if j < init.len() {
        lemma_fit_holds(init, k, j);
        let m = choose|m: int| 0 <= m < before.len() && before[m] == efs[j];
        assert(all[m] == efs[j]);
    } else {
        assert(all[all.len() - 1] == efs[j]);
    }
}

/// The runs of one width are the pools that fit, in order.
proof fn lemma_runs_for_fit(w: usize, efs: Seq<usize>, k: usize, n: nat)
    requires
        n <= efs.len(),
    ensures
        ({
            let fit = efs.take(n as int).filter(|ef: usize| ef >= k);
            runs_for(w, efs, k, n) == Seq::new(fit.len(), |m: int| (w, fit[m]))
        }),
    decreases n,
{
    reveal(Seq::filter);
    let fits = |ef: usize| ef >= k;
    let fit = efs.take(n as int).filter(fits);
    if n > 0 {
        lemma_runs_for_fit(w, efs, k, (n - 1) as nat);
        assert(efs.take(n as int).drop_last() =~= efs.take(n - 1));
        assert(efs.take(n as int).last() == efs[n - 1]);
    }
    assert(runs_for(w, efs, k, n) =~= Seq::new(fit.len(), |m: int| (w, fit[m])));
}

proof fn lemma_runs_places(ws: Seq<usize>, efs: Seq<usize>, k: usize, n: nat)
    requires
        n <= ws.len(),
    ensures
        ({
            let plan = runs(ws, efs, k, n);
            let fit = efs.filter(|ef: usize| ef >= k);
            &&& plan.len() == n * fit.len()
            &&& forall|i: int, m: int|
                0 <= i < n && 0 <= m < fit.len() ==> #[trigger] plan[i * fit.len() + m] == (ws[i], fit[m])
        }),
    decreases n,
{
    let fit = efs.filter(|ef: usize| ef >= k);
    let c = fit.len() as int;
    let plan = runs(ws, efs, k, n);
    if n > 0 {
        let before = runs(ws, efs, k, (n - 1) as nat);
        lemma_runs_places(ws, efs, k, (n - 1) as nat);
        lemma_runs_for_fit(ws[n - 1], efs, k, efs.len());
        assert(efs.take(efs.len() as int) =~= efs);
        lemma_row_bounds(n - 1, c, n as int);
        assert forall|i: int, m: int| 0 <= i < n && 0 <= m < c implies #[trigger] plan[i * c + m] == (
            ws[i],
            fit[m],
        ) by {
            if i < n - 1 {
                lemma_row_bounds(i, c, n - 1);
                assert(plan[i * c + m] == before[i * c + m]);
            }
        }
    } else {
        assert(0 * c == 0);
    }
}

/// Texts that a comma joins have the pieces of the one, and then those of the
/// other.
pub proof fn law_commas_separate_pieces(a: Seq<char>, b: Seq<char>)
    ensures
        segments(a.push(',') + b) == segments(a) + segments(b),
        segments(a).len() >= 1,
    decreases b.len(),
{
    lemma_some_piece(a);
    let all = a.push(',') + b;
    if b.len() == 0 {
        assert(all =~= a.push(','));
        assert(a.push(',').drop_last() =~= a);
        assert(segments(all) =~= segments(a) + segments(b));
    } else {
        law_commas_separate_pieces(a, b.drop_last());
        lemma_some_piece(b.drop_last());
        assert(all.drop_last() =~= a.push(',') + b.drop_last());
        assert(all.last() == b.last());
        let before = segments(a) + segments(b.drop_last());
        if b.last() == ',' {
            assert(before.push(Seq::empty()) =~= segments(a) + segments(b));
        } else {
            assert(before.drop_last().push(before.last().push(b.last())) =~= segments(a) + segments(b));
        }
    }
}

proof fn lemma_some_piece(s: Seq<char>)
    ensures
        segments(s).len() >= 1,
    decreases s.len(),
{
    if s.len() > 0 {
        lemma_some_piece(s.drop_last());
    }
}

/// A text without commas is one piece.
pub proof fn law_no_comma_no_pieces(s: Seq<char>)
    requires
        forall|i: int| 0 <= i < s.len() ==> #[trigger] s[i] != ',',
    ensures
        segments(s) == seq![s],
    decreases s.len(),
{
    if s.len() > 0 {
        let init = s.drop_last();
        assert forall|i: int| 0 <= i < init.len() implies #[trigger] init[i] != ',' by {
            assert(s[i] != ',');
        }
        law_no_comma_no_pieces(init);
        assert(s[s.len() - 1] != ',');
        assert(init.push(s.last()) =~= s);
        assert(segments(s) =~= seq![s]);
    } else {
        assert(s =~= Seq::empty());
        assert(segments(s) =~= seq![s]);
    }
}

/// Trimming cuts whitespace off at both ends, all of it, and nothing else.
pub proof fn law_trimming_cuts_whitespace(s: Seq<char>)
    ensures
        ({
            let t = trim_end(trim_start(s));
            &&& t.len() > 0 ==> !is_space(t.first()) && !is_space(t.last())
            &&& exists|i: int, j: int|
                #![trigger s.subrange(i, j)]
                0 <= i <= j <= s.len() && t == s.subrange(i, j) && (forall|x: int|
                    0 <= x < i ==> is_space(#[trigger] s[x])) && (forall|x: int|
                    j <= x < s.len() ==> is_space(#[trigger] s[x]))
        }),
{
    let u = trim_start(s);
    let t = trim_end(u);
    lemma_trim_start(s);
    lemma_trim_end(u);
    let i = choose|i: int|
        0 <= i <= s.len() && u == #[trigger] s.skip(i) && (forall|x: int| 0 <= x < i ==> is_space(#[trigger] s[x]));
    let j = choose|j: int|
        0 <= j <= u.len() && t == #[trigger] u.take(j) && (forall|x: int|
            j <= x < u.len() ==> is_space(#[trigger] u[x]));
    assert(t =~= s.subrange(i, i + j));
    assert forall|x: int| i + j <= x < s.len() implies is_space(#[trigger] s[x]) by {
        assert(is_space(u[x - i]));
    }
    if t.len() > 0 {
        assert(t.first() == u.first());
    }
}

proof fn lemma_trim_start(s: Seq<char>)
    ensures
        trim_start(s).len() > 0 ==> !is_space(trim_start(s).first()),
        exists|i: int|
            0 <= i <= s.len() && trim_start(s) == #[trigger] s.skip(i) && (forall|x: int|
                0 <= x < i ==> is_space(#[trigger] s[x])),
    decreases s.len(),
{
    if s.len() > 0 && is_space(s.first()) {
        let rest = s.drop_first();
        lemma_trim_start(rest);
        let i = choose|i: int|
            0 <= i <= rest.len() && trim_start(rest) == #[trigger] rest.skip(i) && (forall|x: int|
                0 <= x < i ==> is_space(#[trigger] rest[x]));
        assert(rest.skip(i) =~= s.skip(i + 1));
        assert forall|x: int| 0 <= x < i + 1 implies is_space(#[trigger] s[x]) by {
            if x > 0 {
                assert(is_space(rest[x - 1]));
            }
        }
    } else {
        assert(s.skip(0) =~= s);
    }
}

proof fn lemma_trim_end(s: Seq<char>)
    ensures
        trim_end(s).len() > 0 ==> !is_space(trim_end(s).last()),
        exists|j: int|
            0 <= j <= s.len() && trim_end(s) == #[trigger] s.take(j) && (forall|x: int|
                j <= x < s.len() ==> is_space(#[trigger] s[x])),
    decreases s.len(),
{
    if s.len() > 0 && is_space(s.last()) {
        let rest = s.drop_last();
        lemma_trim_end(rest);
        let j = choose|j: int|
            0 <= j <= rest.len() && trim_end(rest) == #[trigger] rest.take(j) && (forall|x: int|
                j <= x < rest.len() ==> is_space(#[trigger] rest[x]));
        assert(rest.take(j) =~= s.take(j));
        assert forall|x: int| j <= x < s.len() implies is_space(#[trigger] s[x]) by {
            if x < rest.len() {
                assert(is_space(rest[x]));
            }
        }
    } else {
        assert(s.take(s.len() as int) =~= s);
    }
}

/// A decimal digit.
pub open spec fn is_digit(c: char) -> bool {
    0x30 <= c as u32 <= 0x39
}

/// The number that decimal digits stand for: the first one counts most.
pub open spec fn decimal(s: Seq<char>) -> nat
    decreases s.len(),
{
    if s.len() == 0 {
        0
    } else {
        ((s.first() as u32 - 0x30) * pow(10, (s.len() - 1) as nat) + decimal(s.drop_first())) as nat
    }
}

proof fn lemma_decimal_push(s: Seq<char>, c: char)
    requires
        forall|i: int| 0 <= i < s.len() ==> is_digit(#[trigger] s[i]),
        is_digit(c),
    ensures
        decimal(s.push(c)) == decimal(s) * 10 + (c as u32 - 0x30),
    decreases s.len(),
{
    let all = s.push(c);
    if s.len() == 0 {
        assert(all.drop_first() =~= s);
        lemma_pow0(10);
        assert(all.first() == c && (all.len() - 1) as nat == 0);
        assert((c as u32 - 0x30) * pow(10, 0) == c as u32 - 0x30);
        assert(decimal(all.drop_first()) == 0);
        assert(decimal(all) == c as u32 - 0x30);
    } else {
        let rest = s.drop_first();
        assert forall|i: int| 0 <= i < rest.len() implies is_digit(#[trigger] rest[i]) by {
            assert(is_digit(s[i + 1]));
        }
        lemma_decimal_push(rest, c);
        assert(all.drop_first() =~= rest.push(c));
        assert(all.first() == s.first());
        assert(is_digit(s[0]));
        let d = s.first() as u32 - 0x30;
        let p = pow(10, (s.len() - 1) as nat);
        lemma_pow_positive(10, (s.len() - 1) as nat);
        lemma_pow_positive(10, s.len());
        assert(pow(10, s.len()) == 10 * p) by {
            reveal(pow);
        }
        assert(d * p >= 0) by (nonlinear_arith)
            requires
                d >= 0,
                p > 0,
        ;
        assert(d * (10 * p) == 10 * (d * p)) by (nonlinear_arith);
        assert((all.len() - 1) as nat == s.len());
        assert(d * pow(10, s.len()) == 10 * (d * p));
        assert(decimal(all) == 10 * (d * p) + decimal(rest.push(c)));
        assert(decimal(s) == d * p + decimal(rest));
    }
}

/// A row of digits is read as the decimal number that it stands for, wherever
/// that fits. Otherwise the error tells what came first: a character that is
/// no digit, or a number that is too large.
pub proof fn law_digits_are_decimal(s: Seq<char>)
    ensures
        (forall|i: int| 0 <= i < s.len() ==> is_digit(#[trigger] s[i])) && decimal(s) <= usize::MAX ==> digits_value(s)
            == Ok::<usize, NumberError>(decimal(s) as usize),
        digits_value(s) is Ok ==> (forall|i: int| 0 <= i < s.len() ==> is_digit(#[trigger] s[i])) && decimal(s)
            <= usize::MAX,
        digits_value(s) == Err::<usize, NumberError>(NumberError::InvalidDigit) ==> exists|i: int|
            0 <= i < s.len() && digits_value(#[trigger] s.take(i)) is Ok && !is_digit(s[i]),
        digits_value(s) == Err::<usize, NumberError>(NumberError::Overflow) ==> exists|i: int|
            0 <= i < s.len() && digits_value(#[trigger] s.take(i)) is Ok && is_digit(s[i]) && decimal(s.take(i + 1))
                > usize::MAX,
        digits_value(s) != Err::<usize, NumberError>(NumberError::Empty),
    decreases s.len(),
{
    if s.len() > 0 {
        let init = s.drop_last();
        let c = s.last();
        law_digits_are_decimal(init);
        assert(init.push(c) =~= s);
        assert(s.take(s.len() as int) =~= s);
        assert(s.take(s.len() - 1) =~= init);
        if forall|i: int| 0 <= i < s.len() ==> is_digit(#[trigger] s[i]) {
            assert forall|i: int| 0 <= i < init.len() implies is_digit(#[trigger] init[i]) by {
                assert(is_digit(s[i]));
            }
            assert(is_digit(s[s.len() - 1]));
            lemma_decimal_push(init, c);
        }
        match digits_value(init) {
            Ok(v) => {
                if is_digit(c) {
                    lemma_decimal_push(init, c);
                    assert forall|i: int| 0 <= i < s.len() implies is_digit(#[trigger] s[i]) by {
                        if i < init.len() {
                            assert(is_digit(init[i]));
                        }
                    }
                } else {
                    assert(!is_digit(s[s.len() - 1]));
                }
            },
            Err(e) => {
                if e == NumberError::InvalidDigit {
                    let i = choose|i: int|
                        0 <= i < init.len() && digits_value(#[trigger] init.take(i)) is Ok && !is_digit(init[i]);
                    assert(init.take(i) =~= s.take(i));
                } else {
                    let i = choose|i: int|
                        0 <= i < init.len() && digits_value(#[trigger] init.take(i)) is Ok && is_digit(init[i])
                            && decimal(init.take(i + 1)) > usize::MAX;
                    assert(init.take(i) =~= s.take(i));
                    assert(init.take(i + 1) =~= s.take(i + 1));
                }
            },
        }
    }
}

/// A number may have one plus sign in front; nothing at all is no number.
pub proof fn law_numbers_may_have_a_plus(s: Seq<char>)
    ensures
        number(Seq::empty()) == Err::<usize, NumberError>(NumberError::Empty),
        s.len() > 0 ==> number(seq!['+'] + s) == digits_value(s),
        s.len() > 0 && s.first() != '+' ==> number(s) == digits_value(s),
        number(seq!['+']) == Err::<usize, NumberError>(NumberError::InvalidDigit),
{
    let signed = seq!['+'] + s;
    assert(signed.drop_first() =~= s);
    let plus = seq!['+'];
    assert(plus.drop_last() =~= Seq::empty());
    assert(digits_value(plus.drop_last()) == Ok::<usize, NumberError>(0));
    assert(plus.last() == '+');
}

/// A list is read piece by piece, whitespace aside: it gives a number for
/// every piece, in order, or else the first piece that is none, and why.
pub proof fn law_lists_are_read_piece_by_piece(pieces: Seq<Seq<char>>, n: nat)
    requires
        n <= pieces.len(),
        pieces.len() <= usize::MAX,
    ensures
        match numbers(pieces, n) {
            Ok(v) => v.len() == n && forall|i: int|
                0 <= i < n ==> number(trim_end(trim_start(pieces[i]))) == Ok::<usize, NumberError>(#[trigger] v[i]),
            Err(e) => {
                &&& e.segment < n
                &&& number(trim_end(trim_start(pieces[e.segment as int]))) == Err::<usize, NumberError>(e.kind)
                &&& forall|i: int| 0 <= i < e.segment ==> number(trim_end(trim_start(#[trigger] pieces[i]))) is Ok
            },
        },
    decreases n,
{
    if n > 0 {
        law_lists_are_read_piece_by_piece(pieces, (n - 1) as nat);
        match numbers(pieces, (n - 1) as nat) {
            Err(e) => {},
            Ok(v) => {
                match number(trim_end(trim_start(pieces[n - 1]))) {
                    Ok(x) => {
                        let more = v.push(x);
                        assert forall|i: int| 0 <= i < n implies number(trim_end(trim_start(pieces[i]))) == Ok::<
                            usize,
                            NumberError,
                        >(#[trigger] more[i]) by {
                            if i < n - 1 {
                                assert(more[i] == v[i]);
                            }
                        }
                    },
                    Err(kind) => {
                        assert forall|i: int| 0 <= i < n - 1 implies number(
                            trim_end(trim_start(#[trigger] pieces[i])),
                        ) is Ok by {
                            assert(number(trim_end(trim_start(pieces[i]))) == Ok::<usize, NumberError>(v[i]));
                        }
                    },
                }
            },
        }
    }
}

/// These characters are whitespace, and no others.
pub proof fn law_whitespace_is_that_of_unicode(c: char)
    ensures
        is_space(c) <==> seq![
            0x9u32, 0xau32, 0xbu32, 0xcu32, 0xdu32, 0x20u32, 0x85u32, 0xa0u32, 0x1680u32, 0x2000u32, 0x2001u32,
            0x2002u32, 0x2003u32, 0x2004u32, 0x2005u32, 0x2006u32, 0x2007u32, 0x2008u32, 0x2009u32, 0x200au32,
            0x2028u32, 0x2029u32, 0x202fu32, 0x205fu32, 0x3000u32,
        ].contains(c as u32),
{
    let all = seq![
        0x9u32, 0xau32, 0xbu32, 0xcu32, 0xdu32, 0x20u32, 0x85u32, 0xa0u32, 0x1680u32, 0x2000u32, 0x2001u32,
        0x2002u32, 0x2003u32, 0x2004u32, 0x2005u32, 0x2006u32, 0x2007u32, 0x2008u32, 0x2009u32, 0x200au32,
        0x2028u32, 0x2029u32, 0x202fu32, 0x205fu32, 0x3000u32,
    ];
    let x = c as u32;
    if 0x9 <= x <= 0xd {
        assert(all[x - 0x9] == x);
    } else if 0x2000 <= x <= 0x200a {
        assert(all[9 + (x - 0x2000)] == x);
    } else if is_space(c) {
        assert(all[5] == 0x20 && all[6] == 0x85 && all[7] == 0xa0 && all[8] == 0x1680 && all[20] == 0x2028 && all[21]
            == 0x2029 && all[22] == 0x202f && all[23] == 0x205f && all[24] == 0x3000);
    }
}

/// The total of two lists of counts is the sum of their totals, and that of
/// one count the count itself.
pub proof fn law_totals_add_up(a: Seq<usize>, b: Seq<usize>, x: usize)
    ensures
        sum_of(a + b) == sum_of(a) + sum_of(b),
        sum_of(seq![x]) == x,
    decreases b.len(),
{
    assert(seq![x].drop_last() =~= Seq::empty());
    reveal_with_fuel(sum_of, 2);
    if b.len() == 0 {
        assert(a + b =~= a);
    } else {
        law_totals_add_up(a, b.drop_last(), x);
        assert((a + b).drop_last() =~= a + b.drop_last());
    }
}

/// No more queries are run than there are, nor than were asked for; and as
/// many as that.
pub proof fn law_query_limit_is_the_smaller(asked: Option<usize>, available: usize, n: usize)
    requires
        call_ensures(query_limit, (asked, available), n),
    ensures
        n <= available,
        asked is None ==> n == available,
        asked is Some ==> n <= asked->Some_0 && (n == available || n == asked->Some_0),
{
}

/// Results and their ids stand in the same order, one for one.
pub proof fn law_ids_are_those_of_the_results(results: &Vec<(u32, u32)>, ids: Vec<u32>)
    requires
        call_ensures(ids_of, (results,), ids),
    ensures
        ids@.len() == results@.len(),
        forall|i: int| 0 <= i < ids@.len() ==> #[trigger] ids@[i] == results@[i].1,
{
}

/// A planned sweep has every pool size that can hold `k` results, in order,
/// for every width, in order, and nothing else.
pub proof fn law_planned_sweep_has_all_runs(
    ws: &Vec<usize>,
    efs: &Vec<usize>,
    k: usize,
    plan: Vec<(usize, usize)>,
    i: int,
    m: int,
)
    requires
        call_ensures(plan_sweep, (ws, efs, k), plan),
        0 <= i < ws@.len(),
        0 <= m < efs@.filter(|ef: usize| ef >= k).len(),
    ensures
        plan@.len() == ws@.len() * efs@.filter(|ef: usize| ef >= k).len(),
        plan@[i * efs@.filter(|ef: usize| ef >= k).len() + m] == (ws@[i], efs@.filter(|ef: usize| ef >= k)[m]),
{
    law_sweep_is_complete(ws@, efs@, k);
    assert(plan@[i * efs@.filter(|ef: usize| ef >= k).len() + m] == (ws@[i], efs@.filter(|ef: usize| ef >= k)[m]));
}

/// A graph is loaded only from a cache that is named and exists, and saved
/// only to one that is named.
pub proof fn law_graphs_come_from_named_caches(named: bool, exists: bool, plan: GraphPlan)
    requires
        call_ensures(plan_graph, (named, exists), plan),
    ensures
        plan is Load <==> named && exists,
        plan matches GraphPlan::Build { save } ==> (save <==> named),
{
}

/// An index is opened if it exists, and packed if only the graph does.
pub proof fn law_indexes_are_packed_only_when_missing(index_exists: bool, graph_exists: bool, plan: IndexPlan)
    requires
        call_ensures(plan_index, (index_exists, graph_exists), plan),
    ensures
        plan is Open <==> index_exists,
        plan is Pack <==> !index_exists && graph_exists,
        plan is MissingGraph <==> !index_exists && !graph_exists,
{
}

/// A run starts exactly if the ground truth is deep enough, and there is one
/// node per vector.
pub proof fn law_runs_start_only_on_matching_data(
    k: usize,
    depth: usize,
    nodes: u64,
    count: usize,
    deep: Result<(), RunError>,
    same: Result<(), RunError>,
)
    requires
        call_ensures(check_depth, (k, depth), deep),
        call_ensures(check_nodes, (nodes, count), same),
    ensures
        deep is Ok <==> k <= depth,
        deep is Err ==> deep->Err_0 == (RunError::DepthExceeded { k, depth }),
        same is Ok <==> nodes == count,
        same is Err ==> same->Err_0 == (RunError::NodeCount { nodes, count }),
{
}

} // verus!
