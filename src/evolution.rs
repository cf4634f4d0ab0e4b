use crate::local_search::{descend, or_opt_moves, shift_moves, swap_moves, two_opt_scan, Solution};
use crate::matrix::CostMatrix;
use crate::random::{random_below, random_ratio, shuffle};
use crate::tour::{copy_route, is_perm, lemma_swapped_perm, swapped, tour_cost};
use rand::rngs::StdRng;
use vstd::prelude::*;

verus! {

broadcast use vstd::seq_lib::to_multiset_contains;

/// The largest population a run accepts.
pub const MAX_PSIZE: usize = 200;

/// Why a run refuses its configuration.
#[derive(Debug, PartialEq, Eq, Structural)]
pub enum ConfigError {
    /// More individuals than `MAX_PSIZE`.
    PopulationTooLarge,
    /// No individual at all.
    EmptyPopulation,
    /// No generation to run.
    NoGenerations,
    /// A mutation rate whose denominator is zero or below its numerator.
    InvalidMutationRate,
}

/// Every individual of `p` is a tour of the nodes `0..n`.
pub open spec fn population_ok(p: Seq<Vec<usize>>, n: nat) -> bool {
    forall|k: int| 0 <= k < p.len() ==> is_perm(#[trigger] p[k]@, n)
}

/// Position of the first `x` in `r` from `t` on, or `r.len()`.
pub open spec fn first_index(r: Seq<usize>, x: usize, t: int) -> int
    decreases r.len() - t,
{
    if t < 0 || t >= r.len() {
        r.len() as int
    } else if r[t] == x {
        t
    } else {
        first_index(r, x, t + 1)
    }
}

/// Position of the first entry of `r` from `t` on that `vis` does not mark, or `r.len()`.
pub open spec fn next_unvisited(r: Seq<usize>, vis: Seq<bool>, t: int) -> int
    decreases r.len() - t,
{
    if t < 0 || t >= r.len() {
        r.len() as int
    } else if !vis[r[t] as int] {
        t
    } else {
        next_unvisited(r, vis, t + 1)
    }
}

/// The lowest node from `u` on that `vis` does not mark, or `vis.len()`.
pub open spec fn lowest_unvisited(vis: Seq<bool>, u: int) -> int
    decreases vis.len() - u,
{
    if u < 0 || u >= vis.len() {
        vis.len() as int
    } else if !vis[u] {
        u
    } else {
        lowest_unvisited(vis, u + 1)
    }
}

/// The legitimate successor of `fst` in `r`: the first unvisited node after
/// `fst` in `r`, or else the lowest unvisited node.
pub open spec fn legit(r: Seq<usize>, vis: Seq<bool>, fst: usize) -> usize {
    let t = next_unvisited(r, vis, first_index(r, fst, 0) + 1);
    if t < r.len() {
        r[t]
    } else {
        lowest_unvisited(vis, 0) as usize
    }
}

/// Marks of the nodes `0..n` that `off` holds.
pub open spec fn visited_by(off: Seq<usize>, n: nat) -> Seq<bool> {
    Seq::new(n, |u: int| off.contains(u as usize))
}

/// The node that the crossover appends after the partial offspring `off`: the
/// cheaper to reach of the two parents' legitimate successors of its last node.
pub open spec fn next_node(m: &CostMatrix, p1: Seq<usize>, p2: Seq<usize>, off: Seq<usize>) -> usize {
    let cur = off.last();
    let vis = visited_by(off, m.size());
    let a = legit(p1, vis, cur);
    let b = legit(p2, vis, cur);
    if m.w(cur as int, a as int) < m.w(cur as int, b as int) {
        a
    } else {
        b
    }
}

/// The partial offspring `off`, completed by the crossover.
pub open spec fn scx_from(m: &CostMatrix, p1: Seq<usize>, p2: Seq<usize>, off: Seq<usize>) -> Seq<usize>
    decreases m.size() - off.len(),
{
    if off.len() == 0 || off.len() >= m.size() {
        off
    } else {
        scx_from(m, p1, p2, off.push(next_node(m, p1, p2, off)))
    }
}

/// The offspring of the sequential constructive crossover of `p1` and `p2`
/// from node `start`.
pub open spec fn offspring(m: &CostMatrix, p1: Seq<usize>, p2: Seq<usize>, start: usize) -> Seq<usize> {
    scx_from(m, p1, p2, seq![start])
}

/// Which parent the offspring `off` replaces: the first one it is strictly cheaper than.
pub open spec fn replaced(m: &CostMatrix, p1: Seq<usize>, p2: Seq<usize>, off: Seq<usize>) -> Option<usize> {
    if tour_cost(m, off) < tour_cost(m, p1) {
        Some(0)
    } else if tour_cost(m, off) < tour_cost(m, p2) {
        Some(1)
    } else {
        None
    }
}

/// The local-search operator that a draw in `1..=100` selects, applied to `r`.
pub open spec fn refined(m: &CostMatrix, r: Seq<usize>, rnd_op: usize) -> Seq<usize> {
    if rnd_op < 25 {
        descend(m, r, shift_moves(r[0] as int))
    } else if rnd_op < 50 {
        descend(m, r, swap_moves(r[0] as int))
    } else if rnd_op < 75 {
        two_opt_scan(m, r, 0, 2)
    } else {
        descend(m, r, or_opt_moves())
    }
}

/// What a slot of a crossed pair holds after a generation, when the offspring
/// `o` replaced it: `o`, or, where the mutation rate's numerator `mrate_num`
/// is not zero, `o` with one pair of
/// neighbouring entries exchanged and then refined by the operator `op`.
pub open spec fn offspring_slot(m: &CostMatrix, o: Seq<usize>, x: Seq<usize>, op: usize, mrate_num: u32) -> bool {
    x == o || (mrate_num > 0 && exists|pos: int|
        0 <= pos < o.len() - 1 && x == refined(m, #[trigger] swapped(o, pos, pos + 1), op))
}

/// The pair `a`, `b` becomes `a2`, `b2` when crossed from node `start`: the
/// first parent that the offspring is strictly cheaper than takes its place,
/// as `offspring_slot` says; the other slot, or both when neither, is kept.
pub open spec fn pair_from(
    m: &CostMatrix,
    a: Seq<usize>,
    b: Seq<usize>,
    a2: Seq<usize>,
    b2: Seq<usize>,
    op: usize,
    mrate_num: u32,
    start: usize,
) -> bool {
    let o = offspring(m, a, b, start);
    match replaced(m, a, b, o) {
        None => a2 == a && b2 == b,
        Some(w) => if w == 0 {
            offspring_slot(m, o, a2, op, mrate_num) && b2 == b
        } else {
            a2 == a && offspring_slot(m, o, b2, op, mrate_num)
        },
    }
}

/// The pair `a`, `b` becomes `a2`, `b2` by a crossover started from the first
/// node of one of the parents.
pub open spec fn pair_outcome(
    m: &CostMatrix,
    a: Seq<usize>,
    b: Seq<usize>,
    a2: Seq<usize>,
    b2: Seq<usize>,
    op: usize,
    mrate_num: u32,
) -> bool {
    exists|start: usize|
        (start == a[0] || start == b[0]) && #[trigger] pair_from(m, a, b, a2, b2, op, mrate_num, start)
}

/// The `k`-th pair, slots `k` and `half + k`, goes from `before` to `after` as
/// a crossed pair does.
pub open spec fn pair_step(
    m: &CostMatrix,
    before: Seq<Vec<usize>>,
    after: Seq<Vec<usize>>,
    k: int,
    op: usize,
    mrate_num: u32,
) -> bool {
    let half = before.len() / 2;
    pair_outcome(m, before[k]@, before[half + k]@, after[k]@, after[half + k]@, op, mrate_num)
}

/// `q` is the population `before` after each pair of slots `k` and `half + k`
/// was crossed, with the one operator `op` for every pair; an unpaired last
/// slot is kept.
pub open spec fn generation_outcome(
    m: &CostMatrix,
    before: Seq<Vec<usize>>,
    q: Seq<Vec<usize>>,
    op: usize,
    mrate_num: u32,
) -> bool {
    &&& 1 <= op <= 100
    &&& q.len() == before.len()
    &&& forall|k: int| 0 <= k < before.len() / 2 ==> #[trigger] pair_step(m, before, q, k, op, mrate_num)
    &&& before.len() % 2 == 1 ==> q[before.len() - 1] == before[before.len() - 1]
}

/// `s` is a valid tour with its cost, the cheapest of `q`, and the first of the cheapest.
pub open spec fn cheapest_in(m: &CostMatrix, q: Seq<Vec<usize>>, s: Solution) -> bool {
    &&& s.fits(m)
    &&& exists|k: int|
        0 <= k < q.len() && s.route@ == #[trigger] q[k]@ && forall|j: int|
            0 <= j < k ==> tour_cost(m, #[trigger] q[j]@) > s.cost
    &&& forall|k: int| 0 <= k < q.len() ==> s.cost <= tour_cost(m, #[trigger] q[k]@)
}

/// Pairwise distinct nodes below `n`.
pub open spec fn partial_perm(s: Seq<usize>, n: nat) -> bool {
    &&& forall|k: int| 0 <= k < s.len() ==> #[trigger] s[k] < n
    &&& forall|a: int, b: int| 0 <= a < s.len() && 0 <= b < s.len() && a != b ==> #[trigger] s[a]
        != #[trigger] s[b]
}

/// Fewer distinct nodes than `n` leave some node below `n` out.
proof fn lemma_node_left(s: Seq<usize>, n: nat)
    requires
        partial_perm(s, n),
        s.len() < n,
        n < 4294967296,
    ensures
        exists|u: usize| u < n && !s.contains(u),
    decreases n,
{
    let top = (n - 1) as usize;
    if !s.contains(top) {
        assert(top < n && !s.contains(top));
    } else {
        let j = choose|j: int| 0 <= j < s.len() && s[j] == top;
        let t = s.remove(j);
        assert forall|k: int| 0 <= k < t.len() implies #[trigger] t[k] < n - 1 by {
            if k < j {
                assert(t[k] == s[k]);
            } else {
                assert(t[k] == s[k + 1]);
            }
        }
        assert forall|a: int, b: int| 0 <= a < t.len() && 0 <= b < t.len() && a != b implies #[trigger] t[a]
            != #[trigger] t[b] by {
            let sa = if a < j { a } else { a + 1 };
            let sb = if b < j { b } else { b + 1 };
            assert(t[a] == s[sa] && t[b] == s[sb]);
        }
        lemma_node_left(t, (n - 1) as nat);
        let u = choose|u: usize| u < n - 1 && !t.contains(u);
        assert(!s.contains(u)) by {
            if s.contains(u) {
                let k = choose|k: int| 0 <= k < s.len() && s[k] == u;
                assert(u != top);
                assert(k != j);
                if k < j {
                    assert(t[k] == u);
                } else {
                    assert(t[k - 1] == u);
                }
            }
        }
    }
}

/// Helper of the crossover: the legitimate successor of `fst` in the route `i`,
/// given the nodes already `visited`.
pub fn legitimate(fst: usize, visited: &[bool], i: &[usize]) -> (r: usize)
    requires
        forall|k: int| 0 <= k < i@.len() ==> #[trigger] i@[k] < visited@.len(),
        exists|u: int| 0 <= u < visited@.len() && !visited@[u],
    ensures
        r == legit(i@, visited@, fst),
        r < visited@.len(),
        !visited@[r as int],
{
    let n = i.len();
    let mut k: usize = 0;
    while k < n && i[k] != fst
        invariant
            k <= n,
            n == i@.len(),
            first_index(i@, fst, 0) == first_index(i@, fst, k as int),
        decreases n - k,
    {
        k += 1;
    }
    let mut t: usize = if k < n { k + 1 } else { n };
    proof {
        assert(first_index(i@, fst, 0) + 1 >= n ==> next_unvisited(i@, visited@, first_index(i@, fst, 0) + 1) == n);
    }
    while t < n && visited[i[t]]
        invariant
            t <= n,
            n == i@.len(),
            forall|q: int| 0 <= q < i@.len() ==> #[trigger] i@[q] < visited@.len(),
            next_unvisited(i@, visited@, first_index(i@, fst, 0) + 1) == next_unvisited(i@, visited@, t as int),
        decreases n - t,
    {
        t += 1;
    }
    if t < n {
        return i[t];
    }
    let mut u: usize = 0;
    while visited[u]
        invariant
            u <= visited@.len(),
            exists|w: int| u <= w < visited@.len() && !visited@[w],
            lowest_unvisited(visited@, 0) == lowest_unvisited(visited@, u as int),
        decreases visited@.len() - u,
    {
        u += 1;
    }
    u
}

/// The offspring of the sequential constructive crossover of `p1` and `p2`,
/// started from node `start`.
fn sequential_constructive(p1: &[usize], p2: &[usize], start: usize, graph: &CostMatrix) -> (off: Vec<usize>)
    requires
        graph.wf(),
        is_perm(p1@, graph.size()),
        is_perm(p2@, graph.size()),
        start < graph.size(),
    ensures
        off@ == offspring(graph, p1@, p2@, start),
        is_perm(off@, graph.size()),
{
    let n = graph.node_count();
    let mut visited: Vec<bool> = Vec::with_capacity(n);
    let mut u: usize = 0;
    while u < n
        invariant
            u <= n,
            visited@ =~= Seq::new(u as nat, |v: int| false),
        decreases n - u,
    {
        visited.push(false);
        u += 1;
    }
    let mut off: Vec<usize> = Vec::with_capacity(n);
    off.push(start);
    visited.set(start, true);
    proof {
        assert(off@ =~= seq![start]);
        assert forall|v: int| 0 <= v < n implies visited@[v] == off@.contains(v as usize) by {
            if v == start as int {
                assert(off@[0] == start);
            }
        }
        assert(visited@ =~= visited_by(off@, n as nat));
    }
    let mut fst = start;
    while off.len() < n
        invariant
            graph.wf(),
            n == graph.size(),
            is_perm(p1@, n as nat),
            is_perm(p2@, n as nat),
            1 <= off@.len() <= n,
            fst == off@.last(),
            partial_perm(off@, n as nat),
            visited@ == visited_by(off@, n as nat),
            offspring(graph, p1@, p2@, start) == scx_from(graph, p1@, p2@, off@),
        decreases n - off@.len(),
    {
        proof {
            lemma_node_left(off@, n as nat);
            let w = choose|w: usize| w < n && !off@.contains(w);
            assert(!visited@[w as int]);
        }
        let a = legitimate(fst, visited.as_slice(), p1);
        let b = legitimate(fst, visited.as_slice(), p2);
        let next = if graph.cost(fst, a) < graph.cost(fst, b) {
            a
        } else {
            b
        };
        proof {
            assert(next == next_node(graph, p1@, p2@, off@));
            assert(!off@.contains(next));
        }
        let ghost before = off@;
        off.push(next);
        visited.set(next, true);
        fst = next;
        proof {
            assert(visited@ =~= visited_by(off@, n as nat)) by {
                assert forall|v: int| 0 <= v < n implies visited@[v] == off@.contains(v as usize) by {
                    if v == next as int {
                        assert(off@[off@.len() - 1] == next);
                    } else {
                        if before.contains(v as usize) {
                            let q = choose|q: int| 0 <= q < before.len() && before[q] == v as usize;
                            assert(off@[q] == v as usize);
                        }
                        if off@.contains(v as usize) {
                            let q = choose|q: int| 0 <= q < off@.len() && off@[q] == v as usize;
                            assert(q < before.len());
                            assert(before[q] == v as usize);
                        }
                    }
                }
            }
            assert forall|x: int, y: int| 0 <= x < off@.len() && 0 <= y < off@.len() && x != y implies #[trigger] off@[x]
                != #[trigger] off@[y] by {
                if x == before.len() {
                    assert(before[y] == off@[y]);
                } else if y == before.len() {
                    assert(before[x] == off@[x]);
                }
            }
        }
    }
    off
}

/// Sequential constructive crossover of `p1` and `p2` from node `start`: the
/// offspring replaces the first parent it is strictly cheaper than, and the
/// result says which one it replaced.
pub fn cross_from(p1: &mut Vec<usize>, p2: &mut Vec<usize>, start: usize, graph: &CostMatrix) -> (r: Option<usize>)
    requires
        graph.wf(),
        is_perm(old(p1)@, graph.size()),
        is_perm(old(p2)@, graph.size()),
        start < graph.size(),
    ensures
        r == replaced(graph, old(p1)@, old(p2)@, offspring(graph, old(p1)@, old(p2)@, start)),
        final(p1)@ == if r == Some(0usize) { offspring(graph, old(p1)@, old(p2)@, start) } else { old(p1)@ },
        final(p2)@ == if r == Some(1usize) { offspring(graph, old(p1)@, old(p2)@, start) } else { old(p2)@ },
        r == Some(0usize) ==> tour_cost(graph, final(p1)@) < tour_cost(graph, old(p1)@),
        r == Some(1usize) ==> tour_cost(graph, final(p2)@) < tour_cost(graph, old(p2)@),
        is_perm(final(p1)@, graph.size()),
        is_perm(final(p2)@, graph.size()),
{
    let off = sequential_constructive(p1.as_slice(), p2.as_slice(), start, graph);
    let c = fit(&off, graph);
    if c < fit(p1, graph) {
        *p1 = off;
        Some(0)
    } else if c < fit(p2, graph) {
        *p2 = off;
        Some(1)
    } else {
        None
    }
}

/// Crossover of `p1` and `p2`, started from the first node of a parent drawn
/// at random; see `cross_from`.
pub fn cross(rng: &mut StdRng, p1: &mut Vec<usize>, p2: &mut Vec<usize>, graph: &CostMatrix) -> (r: Option<usize>)
    requires
        graph.wf(),
        graph.size() >= 1,
        is_perm(old(p1)@, graph.size()),
        is_perm(old(p2)@, graph.size()),
    ensures
        exists|start: usize|
            (start == old(p1)@[0] || start == old(p2)@[0]) && r == replaced(
                graph,
                old(p1)@,
                old(p2)@,
                #[trigger] offspring(graph, old(p1)@, old(p2)@, start),
            ) && final(p1)@ == (if r == Some(0usize) { offspring(graph, old(p1)@, old(p2)@, start) } else { old(p1)@ })
            && final(p2)@ == (if r == Some(1usize) { offspring(graph, old(p1)@, old(p2)@, start) } else { old(p2)@ }),
        r == Some(0usize) ==> tour_cost(graph, final(p1)@) < tour_cost(graph, old(p1)@),
        r == Some(1usize) ==> tour_cost(graph, final(p2)@) < tour_cost(graph, old(p2)@),
        r.is_some() ==> r == Some(0usize) || r == Some(1usize),
        is_perm(final(p1)@, graph.size()),
        is_perm(final(p2)@, graph.size()),
{
    let start = if random_below(rng, 2) == 0 {
        p1[0]
    } else {
        p2[0]
    };
    cross_from(p1, p2, start, graph)
}

/// Total cost of the closed tour `i`.
pub fn fit(i: &Vec<usize>, graph: &CostMatrix) -> (r: u64)
    requires
        graph.wf(),
        is_perm(i@, graph.size()),
    ensures
        r == tour_cost(graph, i@),
{
    Solution::calculate_cost(i.as_slice(), graph)
}

/// Exchanges a randomly drawn pair of neighbouring entries of `i`.
pub fn mutate(rng: &mut StdRng, i: &mut Vec<usize>)
    requires
        old(i)@.len() >= 2,
    ensures
        exists|pos: int| 0 <= pos < old(i)@.len() - 1 && final(i)@ == #[trigger] swapped(old(i)@, pos, pos + 1),
        is_perm(old(i)@, old(i)@.len()) ==> is_perm(final(i)@, old(i)@.len()),
{
    let pos = random_below(rng, i.len() - 1);
    let a = i[pos];
    let b = i[pos + 1];
    i.set(pos, b);
    i.set(pos + 1, a);
    proof {
        assert(i@ =~= swapped(old(i)@, pos as int, pos + 1));
        if is_perm(old(i)@, old(i)@.len()) {
            lemma_swapped_perm(old(i)@, old(i)@.len(), pos as int, pos + 1);
        }
    }
}

/// The tour `p` with its cost, ready for local search.
pub fn individual_to_solution(p: &Vec<usize>, graph: &CostMatrix) -> (s: Solution)
    requires
        graph.wf(),
        is_perm(p@, graph.size()),
    ensures
        s.fits(graph),
        s.route@ == p@,
{
    let route = copy_route(p.as_slice());
    let cost = Solution::calculate_cost(route.as_slice(), graph);
    Solution { route, cost }
}

/// Applies the local-search operator that the draw `rnd_op` in `1..=100`
/// selects: below 25 shift, below 50 swap, below 75 two-opt, else or-opt;
/// shift and swap work on the position named by the tour's first node.
pub fn refine(s: Solution, rnd_op: usize, graph: &CostMatrix) -> (r: Solution)
    requires
        s.fits(graph),
        graph.size() >= 1,
        1 <= rnd_op <= 100,
    ensures
        r.fits(graph),
        r.route@ == refined(graph, s.route@, rnd_op),
{
    if rnd_op < 25 {
        s.shift_search(graph, s.route[0])
    } else if rnd_op < 50 {
        s.swap_search(graph, s.route[0])
    } else if rnd_op < 75 {
        s.two_opt_step(graph)
    } else {
        s.or_opt_search(graph)
    }
}

/// Mutates an offspring, then refines it with the operator that `rnd_op` selects.
fn improve_offspring(rng: &mut StdRng, off: &mut Vec<usize>, rnd_op: usize, graph: &CostMatrix)
    requires
        graph.wf(),
        graph.size() >= 2,
        is_perm(old(off)@, graph.size()),
        1 <= rnd_op <= 100,
    ensures
        is_perm(final(off)@, graph.size()),
        exists|pos: int|
            0 <= pos < old(off)@.len() - 1 && final(off)@ == refined(
                graph,
                #[trigger] swapped(old(off)@, pos, pos + 1),
                rnd_op,
            ),
{
    mutate(rng, off);
    let s = individual_to_solution(off, graph);
    let s = refine(s, rnd_op, graph);
    *off = s.route;
}

/// Fills every slot of `p` with a random tour of the nodes `0..n`.
pub fn init(rng: &mut StdRng, p: &mut Vec<Vec<usize>>, n: usize)
    ensures
        final(p)@.len() == old(p)@.len(),
        population_ok(final(p)@, n as nat),
{
    let mut r: Vec<usize> = Vec::with_capacity(n);
    let mut v: usize = 0;
    while v < n
        invariant
            v <= n,
            r@ =~= Seq::new(v as nat, |x: int| x as usize),
        decreases n - v,
    {
        r.push(v);
        v += 1;
    }
    let mut k: usize = 0;
    while k < p.len()
        invariant
            k <= p@.len(),
            p@.len() == old(p)@.len(),
            is_perm(r@, n as nat),
            forall|q: int| 0 <= q < k ==> is_perm(#[trigger] p@[q]@, n as nat),
        decreases p@.len() - k,
    {
        let ghost before = r@;
        shuffle(rng, &mut r);
        proof {
            lemma_same_multiset_perm(before, r@, n as nat);
        }
        p.set(k, copy_route(r.as_slice()));
        k += 1;
    }
}

/// A reordering of a tour of `0..n` is one too.
proof fn lemma_same_multiset_perm(a: Seq<usize>, b: Seq<usize>, n: nat)
    requires
        is_perm(a, n),
        b.to_multiset() == a.to_multiset(),
    ensures
        is_perm(b, n),
{
    a.to_multiset_ensures();
    b.to_multiset_ensures();
    assert(a.no_duplicates());
    a.lemma_multiset_has_no_duplicates();
    b.lemma_multiset_has_no_duplicates_conv();
    assert forall|k: int| 0 <= k < b.len() implies #[trigger] b[k] < n by {
        assert(b.contains(b[k]));
        assert(b.to_multiset().count(b[k]) > 0);
        assert(a.to_multiset().count(b[k]) > 0);
        assert(a.contains(b[k]));
    }
}

/// A reordering of a population of valid tours holds valid tours.
proof fn lemma_same_multiset_population(a: Seq<Vec<usize>>, b: Seq<Vec<usize>>, n: nat)
    requires
        population_ok(a, n),
        b.to_multiset() == a.to_multiset(),
    ensures
        population_ok(b, n),
        b.len() == a.len(),
{
    a.to_multiset_ensures();
    b.to_multiset_ensures();
    assert forall|k: int| 0 <= k < b.len() implies is_perm(#[trigger] b[k]@, n) by {
        assert(b.contains(b[k]));
        assert(b.to_multiset().count(b[k]) > 0);
        assert(a.to_multiset().count(b[k]) > 0);
        assert(a.contains(b[k]));
        let j = choose|j: int| 0 <= j < a.len() && a[j] == b[k];
        assert(is_perm(a[j]@, n));
    }
}

/// One generation: pairs the individuals of the two halves of `p` at equal
/// offsets and crosses each pair; an offspring that replaced a parent is, with
/// chance `mrate_num / mrate_den`, mutated and refined by the local-search
/// operator drawn once for the whole generation. Then `p` is shuffled.
pub fn generation(rng: &mut StdRng, mrate_num: u32, mrate_den: u32, p: &mut Vec<Vec<usize>>, graph: &CostMatrix)
    requires
        graph.wf(),
        graph.size() >= 2,
        0 < mrate_den,
        mrate_num <= mrate_den,
        population_ok(old(p)@, graph.size()),
    ensures
        final(p)@.len() == old(p)@.len(),
        population_ok(final(p)@, graph.size()),
        exists|q: Seq<Vec<usize>>, op: usize|
            #[trigger] generation_outcome(graph, old(p)@, q, op, mrate_num) && final(p)@.to_multiset()
                == q.to_multiset(),
{
    let rnd_op = random_below(rng, 100) + 1;
    let len = p.len();
    let half = len / 2;
    let mut k: usize = 0;
    while k < half
        invariant
            graph.wf(),
            graph.size() >= 2,
            0 < mrate_den,
            mrate_num <= mrate_den,
            1 <= rnd_op <= 100,
            half == old(p)@.len() / 2,
            half + half <= p@.len(),
            len == p@.len(),
            p@.len() == old(p)@.len(),
            k <= half,
            population_ok(p@, graph.size()),
            forall|t: int| 0 <= t < k ==> #[trigger] pair_step(graph, old(p)@, p@, t, rnd_op, mrate_num),
            forall|t: int| (k <= t < half || half + k <= t < len) ==> #[trigger] p@[t] == old(p)@[t],
        decreases half - k,
    {
        let mut p1 = copy_route(p[k].as_slice());
        let mut p2 = copy_route(p[half + k].as_slice());
        proof {
            assert(is_perm(p@[k as int]@, graph.size()));
            assert(is_perm(p@[half + k]@, graph.size()));
            assert(p@[k as int] == old(p)@[k as int]);
            assert(p@[half + k] == old(p)@[half + k]);
        }
        let ghost a = p1@;
        let ghost b = p2@;
        let which = cross(rng, &mut p1, &mut p2, graph);
        let ghost start = choose|start: usize|
            (start == a[0] || start == b[0]) && which == replaced(
                graph,
                a,
                b,
                #[trigger] offspring(graph, a, b, start),
            ) && p1@ == (if which == Some(0usize) { offspring(graph, a, b, start) } else { a })
            && p2@ == (if which == Some(1usize) { offspring(graph, a, b, start) } else { b });
        let ghost o = offspring(graph, a, b, start);
        if which.is_some() && random_ratio(rng, mrate_num, mrate_den) {
            if which == Some(0usize) {
                improve_offspring(rng, &mut p1, rnd_op, graph);
            } else {
                improve_offspring(rng, &mut p2, rnd_op, graph);
            }
        }
        proof {
            assert(pair_from(graph, a, b, p1@, p2@, rnd_op, mrate_num, start));
        }
        let ghost mid = p@;
        p.set(k, p1);
        p.set(half + k, p2);
        proof {
            assert(pair_step(graph, old(p)@, p@, k as int, rnd_op, mrate_num));
            assert forall|t: int| 0 <= t < k + 1 implies #[trigger] pair_step(graph, old(p)@, p@, t, rnd_op, mrate_num) by {
                if t < k {
                    assert(p@[t] == mid[t]);
                    assert(p@[half + t] == mid[half + t]);
                    assert(pair_step(graph, old(p)@, mid, t, rnd_op, mrate_num));
                }
            }
            assert forall|t: int| (k + 1 <= t < half || half + k + 1 <= t < len) implies #[trigger] p@[t] == old(p)@[t] by {
                assert(p@[t] == mid[t]);
            }
        }
        k += 1;
    }
    let ghost before = p@;
    shuffle(rng, p);
    proof {
        lemma_same_multiset_population(before, p@, graph.size());
        assert(generation_outcome(graph, old(p)@, before, rnd_op, mrate_num));
    }
}

/// The cheapest individual of `p`, the first of them on ties; `None` when `p` is empty.
pub fn best_of_population(p: &Vec<Vec<usize>>, graph: &CostMatrix) -> (r: Option<Solution>)
    requires
        graph.wf(),
        population_ok(p@, graph.size()),
    ensures
        r.is_none() <==> p@.len() == 0,
        r.is_some() ==> r.unwrap().fits(graph),
        r.is_some() ==> cheapest_in(graph, p@, r.unwrap()),
{
    if p.len() == 0 {
        return None;
    }
    let mut best: usize = 0;
    let mut best_cost = fit(&p[0], graph);
    let mut k: usize = 1;
    while k < p.len()
        invariant
            graph.wf(),
            population_ok(p@, graph.size()),
            1 <= k <= p@.len(),
            best < k,
            best_cost == tour_cost(graph, p@[best as int]@),
            forall|q: int| 0 <= q < k ==> best_cost <= tour_cost(graph, #[trigger] p@[q]@),
            forall|q: int| 0 <= q < best ==> best_cost < tour_cost(graph, #[trigger] p@[q]@),
        decreases p@.len() - k,
    {
        let c = fit(&p[k], graph);
        if c < best_cost {
            best = k;
            best_cost = c;
        }
        k += 1;
    }
    let s = individual_to_solution(&p[best], graph);
    proof {
        assert(s.route@ == p@[best as int]@);
    }
    Some(s)
}

/// A full run: checks the configuration, fills a population of `psize` random
/// tours, runs `itnum` generations with mutation rate `mrate_num / mrate_den`,
/// and returns the cheapest individual of the final population.
pub fn memetic_algorithm(
    rng: &mut StdRng,
    graph: &CostMatrix,
    itnum: usize,
    psize: usize,
    mrate_num: u32,
    mrate_den: u32,
) -> (r: Result<Solution, ConfigError>)
    requires
        graph.wf(),
        graph.size() >= 2,
    ensures
        r == Err::<Solution, ConfigError>(ConfigError::PopulationTooLarge) <==> psize > MAX_PSIZE,
        r == Err::<Solution, ConfigError>(ConfigError::EmptyPopulation) <==> psize == 0,
        r == Err::<Solution, ConfigError>(ConfigError::NoGenerations) <==> 0 < psize <= MAX_PSIZE
            && itnum == 0,
        r == Err::<Solution, ConfigError>(ConfigError::InvalidMutationRate) <==> 0 < psize <= MAX_PSIZE
            && itnum > 0 && (mrate_den == 0 || mrate_num > mrate_den),
        r.is_ok() ==> exists|q: Seq<Vec<usize>>|
            q.len() == psize && population_ok(q, graph.size()) && #[trigger] cheapest_in(
                graph,
                q,
                r.unwrap(),
            ),
{
    if psize > MAX_PSIZE {
        return Err(ConfigError::PopulationTooLarge);
    }
    if psize == 0 {
        return Err(ConfigError::EmptyPopulation);
    }
    if itnum == 0 {
        return Err(ConfigError::NoGenerations);
    }
    if mrate_den == 0 || mrate_num > mrate_den {
        return Err(ConfigError::InvalidMutationRate);
    }
    let mut p: Vec<Vec<usize>> = Vec::with_capacity(psize);
    let mut k: usize = 0;
    while k < psize
        invariant
            k <= psize,
            p@.len() == k,
        decreases psize - k,
    {
        p.push(Vec::new());
        k += 1;
    }
    init(rng, &mut p, graph.node_count());
    let mut g: usize = 0;
    while g < itnum
        invariant
            graph.wf(),
            graph.size() >= 2,
            0 < mrate_den,
            mrate_num <= mrate_den,
            p@.len() == psize,
            population_ok(p@, graph.size()),
        decreases itnum - g,
    {
        generation(rng, mrate_num, mrate_den, &mut p, graph);
        g += 1;
    }
    match best_of_population(&p, graph) {
        Some(s) => {
            let r: Result<Solution, ConfigError> = Ok(s);
            proof {
                assert(cheapest_in(graph, p@, r.unwrap()));
                assert(p@.len() == psize && population_ok(p@, graph.size()));
            }
            r
        },
        None => Err(ConfigError::EmptyPopulation),
    }
}

} // verus!
