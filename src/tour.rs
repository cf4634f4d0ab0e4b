use crate::matrix::CostMatrix;
use vstd::prelude::*;

verus! {

/// `r` visits each of the nodes `0..n` exactly once.
pub open spec fn is_perm(r: Seq<usize>, n: nat) -> bool {
    &&& r.len() == n
    &&& forall|k: int| 0 <= k < r.len() ==> #[trigger] r[k] < n
    &&& forall|a: int, b: int| 0 <= a < r.len() && 0 <= b < r.len() && a != b ==> #[trigger] r[a]
        != #[trigger] r[b]
}

/// Cost of walking `r` from its first node to its last, without returning.
pub open spec fn path_cost(m: &CostMatrix, r: Seq<usize>) -> int
    decreases r.len(),
{
    if r.len() <= 1 {
        0
    } else {
        path_cost(m, r.drop_last()) + m.w(r[r.len() - 2] as int, r.last() as int)
    }
}

/// Cost of the closed tour `r`: its path plus the edge from the last node back to the first.
pub open spec fn tour_cost(m: &CostMatrix, r: Seq<usize>) -> int {
    if r.len() == 0 {
        0
    } else {
        path_cost(m, r) + m.w(r.last() as int, r[0] as int)
    }
}

/// A tour never costs less than nothing.
pub proof fn lemma_tour_cost_nonneg(m: &CostMatrix, r: Seq<usize>)
    ensures
        tour_cost(m, r) >= 0,
{
    lemma_path_cost_nonneg(m, r);
}

/// A path never costs less than nothing.
pub proof fn lemma_path_cost_nonneg(m: &CostMatrix, r: Seq<usize>)
    ensures
        path_cost(m, r) >= 0,
    decreases r.len(),
{
    if r.len() > 1 {
        lemma_path_cost_nonneg(m, r.drop_last());
    }
}

/// `r` with the entries at positions `a` and `b` exchanged.
pub open spec fn swapped(r: Seq<usize>, a: int, b: int) -> Seq<usize> {
    r.update(a, r[b]).update(b, r[a])
}

/// `r` with the segment of positions `i + 1 ..= j` reversed.
pub open spec fn reversed(r: Seq<usize>, i: int, j: int) -> Seq<usize> {
    Seq::new(r.len(), |k: int| if i < k <= j { r[i + 1 + j - k] } else { r[k] })
}

/// Position in `r` of the entry that lands at `k` when the segment `i .. i + l`
/// is taken out and put back, in its order, before position `p` of what remains.
pub open spec fn moved_source(i: int, l: int, p: int, k: int) -> int {
    if k < p {
        if k < i { k } else { k + l }
    } else if k < p + l {
        i + (k - p)
    } else {
        if k - l < i { k - l } else { k }
    }
}

/// `r` with the segment `i .. i + l` moved before position `p` of the rest.
pub open spec fn moved(r: Seq<usize>, i: int, l: int, p: int) -> Seq<usize> {
    Seq::new(r.len(), |k: int| r[moved_source(i, l, p, k)])
}

/// The rotation of `r` that starts at position `k`.
pub open spec fn rotated(r: Seq<usize>, k: int) -> Seq<usize> {
    r.skip(k) + r.take(k)
}

/// The cost of a path splits at any point into the cost of the two parts and
/// the edge that joins them: this is what an incremental recomputation of a
/// tour's cost relies on, and it agrees exactly with the direct sum.
pub proof fn lemma_path_cost_split(m: &CostMatrix, a: Seq<usize>, b: Seq<usize>)
    requires
        a.len() > 0,
        b.len() > 0,
    ensures
        path_cost(m, a + b) == path_cost(m, a) + m.w(a.last() as int, b[0] as int) + path_cost(
            m,
            b,
        ),
    decreases b.len(),
{
    if b.len() == 1 {
        assert((a + b).drop_last() =~= a);
    } else {
        lemma_path_cost_split(m, a, b.drop_last());
        assert((a + b).drop_last() =~= a + b.drop_last());
    }
}

/// A tour costs the same whichever of its nodes it starts from.
pub proof fn lemma_rotation_keeps_cost(m: &CostMatrix, r: Seq<usize>, k: int)
    requires
        0 <= k < r.len(),
    ensures
        tour_cost(m, rotated(r, k)) == tour_cost(m, r),
{
    if k > 0 {
        let a = r.take(k);
        let b = r.skip(k);
        assert(r =~= a + b);
        lemma_path_cost_split(m, a, b);
        lemma_path_cost_split(m, b, a);
    } else {
        assert(rotated(r, k) =~= r);
    }
}

/// Reading `r` through an injective map of positions onto positions keeps it a permutation.
pub proof fn lemma_reindex_perm(r: Seq<usize>, n: nat, f: spec_fn(int) -> int)
    requires
        is_perm(r, n),
        forall|k: int| 0 <= k < n ==> 0 <= #[trigger] f(k) < n,
        forall|a: int, b: int| 0 <= a < n && 0 <= b < n && a != b ==> #[trigger] f(a) != #[trigger] f(
            b,
        ),
    ensures
        is_perm(Seq::new(n, |k: int| r[f(k)]), n),
{
    let s = Seq::new(n, |k: int| r[f(k)]);
    assert forall|a: int, b: int| 0 <= a < s.len() && 0 <= b < s.len() && a != b implies #[trigger] s[a]
        != #[trigger] s[b] by {
        assert(f(a) != f(b));
    }
}

/// Exchanging two entries keeps a tour a permutation.
pub proof fn lemma_swapped_perm(r: Seq<usize>, n: nat, a: int, b: int)
    requires
        is_perm(r, n),
        0 <= a < n,
        0 <= b < n,
    ensures
        is_perm(swapped(r, a, b), n),
{
    let f = |k: int| if k == a { b } else if k == b { a } else { k };
    lemma_reindex_perm(r, n, f);
    assert(swapped(r, a, b) =~= Seq::new(n, |k: int| r[f(k)]));
}

/// Reversing a segment keeps a tour a permutation.
pub proof fn lemma_reversed_perm(r: Seq<usize>, n: nat, i: int, j: int)
    requires
        is_perm(r, n),
        0 <= i < j < n,
    ensures
        is_perm(reversed(r, i, j), n),
{
    let f = |k: int| if i < k <= j { i + 1 + j - k } else { k };
    lemma_reindex_perm(r, n, f);
    assert(reversed(r, i, j) =~= Seq::new(n, |k: int| r[f(k)]));
}

/// Moving a segment keeps a tour a permutation.
pub proof fn lemma_moved_perm(r: Seq<usize>, n: nat, i: int, l: int, p: int)
    requires
        is_perm(r, n),
        0 <= i,
        1 <= l,
        i + l <= n,
        0 <= p <= n - l,
    ensures
        is_perm(moved(r, i, l, p), n),
{
    let f = |k: int| moved_source(i, l, p, k);
    lemma_reindex_perm(r, n, f);
    assert(moved(r, i, l, p) =~= Seq::new(n, |k: int| r[f(k)]));
}

/// A copy of `r`.
pub fn copy_route(r: &[usize]) -> (out: Vec<usize>)
    ensures
        out@ == r@,
{
    let mut out: Vec<usize> = Vec::with_capacity(r.len());
    let mut k: usize = 0;
    while k < r.len()
        invariant
            k <= r@.len(),
            out@ == r@.take(k as int),
        decreases r@.len() - k,
    {
        out.push(r[k]);
        k += 1;
        proof {
            assert(out@ =~= r@.take(k as int));
        }
    }
    proof {
        assert(out@ =~= r@);
    }
    out
}

/// `r` with the entries at positions `a` and `b` exchanged.
pub fn swap_route(r: &[usize], a: usize, b: usize) -> (out: Vec<usize>)
    requires
        a < r@.len(),
        b < r@.len(),
    ensures
        out@ == swapped(r@, a as int, b as int),
{
    let mut out = copy_route(r);
    let x = out[a];
    let y = out[b];
    out.set(a, y);
    out.set(b, x);
    out
}

/// `r` with the segment of positions `i + 1 ..= j` reversed.
pub fn reverse_route(r: &[usize], i: usize, j: usize) -> (out: Vec<usize>)
    requires
        i < j < r@.len(),
    ensures
        out@ == reversed(r@, i as int, j as int),
{
    let n = r.len();
    let mut out: Vec<usize> = Vec::with_capacity(n);
    let mut k: usize = 0;
    while k < n
        invariant
            k <= n,
            n == r@.len(),
            i < j < n,
            out@ =~= reversed(r@, i as int, j as int).take(k as int),
        decreases n - k,
    {
        if i < k && k <= j {
            out.push(r[i + 1 + (j - k)]);
        } else {
            out.push(r[k]);
        }
        k += 1;
    }
    out
}

/// `r` with the segment `i .. i + l` moved before position `p` of the rest.
pub fn move_segment(r: &[usize], i: usize, l: usize, p: usize) -> (out: Vec<usize>)
    requires
        1 <= l,
        i + l <= r@.len(),
        p <= r@.len() - l,
    ensures
        out@ == moved(r@, i as int, l as int, p as int),
{
    let n = r.len();
    let mut out: Vec<usize> = Vec::with_capacity(n);
    let mut k: usize = 0;
    while k < n
        invariant
            k <= n,
            n == r@.len(),
            1 <= l,
            i + l <= n,
            p <= n - l,
            out@ =~= moved(r@, i as int, l as int, p as int).take(k as int),
        decreases n - k,
    {
        let src: usize = if k < p {
            if k < i { k } else { k + l }
        } else if k < p + l {
            i + (k - p)
        } else {
            if k - l < i { k - l } else { k }
        };
        out.push(r[src]);
        k += 1;
    }
    out
}

} // verus!
