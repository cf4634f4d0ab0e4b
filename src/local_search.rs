use crate::matrix::{CostMatrix, MAX_WEIGHT};
use crate::tour::{
    copy_route, is_perm, lemma_moved_perm, lemma_tour_cost_nonneg, lemma_reversed_perm, lemma_swapped_perm, move_segment,
    moved, path_cost, reverse_route, reversed, swap_route, swapped, tour_cost,
};
use vstd::prelude::*;

verus! {

/// Local-search operators over a tour and its cost.
pub trait LocalSearch<Graph>: Sized {
    /// `self` is a valid tour of `graph` and carries its exact cost.
    spec fn valid_on(&self, graph: &Graph) -> bool;

    /// `start` is a position of the tour.
    spec fn holds_position(&self, start: usize) -> bool;

    /// The cost that `self` carries.
    spec fn total(&self) -> int;

    /// What `swap` returns from `self`.
    spec fn swap_post(&self, graph: &Graph, start: usize, r: &Self) -> bool;

    /// What `two_opt` returns from `self`.
    spec fn two_opt_post(&self, graph: &Graph, r: &Self) -> bool;

    /// What `shift` returns from `self`.
    spec fn shift_post(&self, graph: &Graph, start: usize, r: &Self) -> bool;

    /// What `or_opt` returns from `self`.
    spec fn or_opt_post(&self, graph: &Graph, r: &Self) -> bool;

    /// Best-improvement descent over the exchanges of position `start` with every other.
    fn swap(&self, graph: &Graph, start: usize) -> (r: Self)
        requires
            self.valid_on(graph),
            self.holds_position(start),
        ensures
            r.valid_on(graph),
            r.total() <= self.total(),
            self.swap_post(graph, start, &r),
    ;

    /// One first-improvement segment reversal, if any improves.
    fn two_opt(&self, graph: &Graph) -> (r: Self)
        requires
            self.valid_on(graph),
        ensures
            r.valid_on(graph),
            r.total() <= self.total(),
            self.two_opt_post(graph, &r),
    ;

    /// Best-improvement descent over the reinsertions of the node at position `start`.
    fn shift(&self, graph: &Graph, start: usize) -> (r: Self)
        requires
            self.valid_on(graph),
            self.holds_position(start),
        ensures
            r.valid_on(graph),
            r.total() <= self.total(),
            self.shift_post(graph, start, &r),
    ;

    /// Best-improvement descent over the moves of segments of one to three nodes.
    fn or_opt(&self, graph: &Graph) -> (r: Self)
        requires
            self.valid_on(graph),
        ensures
            r.valid_on(graph),
            r.total() <= self.total(),
            self.or_opt_post(graph, &r),
    ;
}

/// A tour with its cached cost.
pub struct Solution {
    pub route: Vec<usize>,
    pub cost: u64,
}

/// Views of the tours of a list of solutions.
pub open spec fn routes(v: Seq<Solution>) -> Seq<Seq<usize>> {
    Seq::new(v.len(), |k: int| v[k].route@)
}

/// `c` if it is strictly cheaper than `acc`, else `acc`.
pub open spec fn better(m: &CostMatrix, c: Seq<usize>, acc: Seq<usize>) -> Seq<usize> {
    if tour_cost(m, c) < tour_cost(m, acc) {
        c
    } else {
        acc
    }
}

/// Scanning `cands` in order from `acc`, the first strictly cheapest tour, or `acc`.
pub open spec fn best_of(m: &CostMatrix, cands: Seq<Seq<usize>>, acc: Seq<usize>) -> Seq<usize>
    decreases cands.len(),
{
    if cands.len() == 0 {
        acc
    } else {
        best_of(m, cands.drop_first(), better(m, cands[0], acc))
    }
}

/// Repeats the best strict improvement among the neighbours that `nb` gives,
/// until none improves.
pub open spec fn descend(
    m: &CostMatrix,
    r: Seq<usize>,
    nb: spec_fn(Seq<usize>) -> Seq<Seq<usize>>,
) -> Seq<usize>
    decreases tour_cost(m, r),
{
    let next = best_of(m, nb(r), r);
    if 0 <= tour_cost(m, next) < tour_cost(m, r) {
        descend(m, next, nb)
    } else {
        r
    }
}

/// The tours reached by exchanging position `start` with the position named by
/// each entry of the tour, in the tour's order.
pub open spec fn swap_neighbours(r: Seq<usize>, start: int) -> Seq<Seq<usize>> {
    Seq::new(r.len(), |v: int| swapped(r, start, r[v] as int))
}

/// The tours reached by taking out the node at `start` and putting it back at
/// each other position, in order of that position.
pub open spec fn shift_neighbours(r: Seq<usize>, start: int) -> Seq<Seq<usize>> {
    Seq::new((r.len() - 1) as nat, |k: int| moved(r, start, 1, if k < start { k } else { k + 1 }))
}

/// The tours reached by moving the segment `i .. i + l` to each place of the rest.
pub open spec fn segment_moves(r: Seq<usize>, i: int, l: int) -> Seq<Seq<usize>> {
    Seq::new((r.len() - l) as nat, |p: int| moved(r, i, l, p))
}

/// The or-opt neighbours from segment length `l` and start `i` on: lengths one
/// to three (at most the tour's length), then starts, then places.
pub open spec fn or_opt_from(r: Seq<usize>, l: int, i: int) -> Seq<Seq<usize>>
    decreases 4 - l, r.len() + 1 - i,
{
    if l < 1 || l > 3 || l > r.len() || i < 0 {
        Seq::empty()
    } else if i + l > r.len() {
        or_opt_from(r, l + 1, 0)
    } else {
        segment_moves(r, i, l) + or_opt_from(r, l, i + 1)
    }
}

pub open spec fn swap_moves(start: int) -> spec_fn(Seq<usize>) -> Seq<Seq<usize>> {
    |r: Seq<usize>| swap_neighbours(r, start)
}

pub open spec fn shift_moves(start: int) -> spec_fn(Seq<usize>) -> Seq<Seq<usize>> {
    |r: Seq<usize>| shift_neighbours(r, start)
}

pub open spec fn or_opt_moves() -> spec_fn(Seq<usize>) -> Seq<Seq<usize>> {
    |r: Seq<usize>| or_opt_from(r, 1, 0)
}

/// The first reversal, scanning `(i, j)` in order from the given pair, that
/// makes the tour strictly cheaper; the tour itself if none does.
pub open spec fn two_opt_scan(m: &CostMatrix, r: Seq<usize>, i: int, j: int) -> Seq<usize>
    decreases r.len() - i, r.len() + 1 - j,
{
    if i < 0 || i + 2 >= r.len() {
        r
    } else if j >= r.len() {
        two_opt_scan(m, r, i + 1, i + 3)
    } else if j >= i + 2 && tour_cost(m, reversed(r, i, j)) < tour_cost(m, r) {
        reversed(r, i, j)
    } else {
        two_opt_scan(m, r, i, j + 1)
    }
}

impl Solution {
    /// A valid tour of `m`, carrying its exact cost.
    pub open spec fn fits(&self, m: &CostMatrix) -> bool {
        &&& m.wf()
        &&& is_perm(self.route@, m.size())
        &&& self.cost == tour_cost(m, self.route@)
    }

    /// Total cost of the closed tour `route`: each edge between neighbours,
    /// and the edge from the last node back to the first.
    pub fn calculate_cost(route: &[usize], graph: &CostMatrix) -> (r: u64)
        requires
            graph.wf(),
            is_perm(route@, graph.size()),
        ensures
            r == tour_cost(graph, route@),
    {
        let n = route.len();
        if n == 0 {
            return 0;
        }
        let mut acc: u64 = 0;
        let mut k: usize = 1;
        while k < n
            invariant
                1 <= k <= n,
                n == route@.len(),
                n <= graph.size(),
                graph.wf(),
                forall|t: int| 0 <= t < route@.len() ==> #[trigger] route@[t] < graph.size(),
                acc == path_cost(graph, route@.take(k as int)),
                acc <= (k - 1) * (MAX_WEIGHT as int),
            decreases n - k,
        {
            proof {
                assert(route@.take(k + 1).drop_last() =~= route@.take(k as int));
                assert((k as int) <= 4294967295);
                assert((k as int) * (MAX_WEIGHT as int) <= 4294967295 * 4294967295)
                    by (nonlinear_arith)
                    requires
                        (k as int) <= 4294967295,
                ;
                assert(((k + 1 - 1) as int) * (MAX_WEIGHT as int) == (k - 1) * (MAX_WEIGHT as int)
                    + MAX_WEIGHT) by (nonlinear_arith);
            }
            acc = acc + graph.cost(route[k - 1], route[k]) as u64;
            k += 1;
        }
        proof {
            assert(route@.take(n as int) =~= route@);
            assert((n as int) <= 4294967295);
            assert(((n - 1) as int) * (MAX_WEIGHT as int) <= 4294967294 * 4294967295)
                by (nonlinear_arith)
                requires
                    (n as int) <= 4294967295,
                    n >= 1,
            ;
        }
        acc + graph.cost(route[n - 1], route[0]) as u64
    }

    /// A solution holding `route` and its cost.
    fn priced(route: Vec<usize>, graph: &CostMatrix) -> (r: Solution)
        requires
            graph.wf(),
            is_perm(route@, graph.size()),
        ensures
            r.fits(graph),
            r.route@ == route@,
    {
        let cost = Solution::calculate_cost(route.as_slice(), graph);
        Solution { route, cost }
    }

    /// A copy of this solution.
    fn duplicate(&self) -> (r: Solution)
        ensures
            r.route@ == self.route@,
            r.cost == self.cost,
    {
        Solution { route: copy_route(self.route.as_slice()), cost: self.cost }
    }
    fn neighbourhood_by_swap(&self, graph: &CostMatrix, start: usize) -> (r: Vec<Solution>)
        requires
            self.fits(graph),
            start < self.route@.len(),
        ensures
            routes(r@) == swap_neighbours(self.route@, start as int),
            forall|k: int| 0 <= k < r@.len() ==> #[trigger] r@[k].fits(graph),
    {
        let mut solutions: Vec<Solution> = Vec::new();
        let n = self.route.len();
        let mut v: usize = 0;
        while v < n
            invariant
                self.fits(graph),
                start < n,
                n == self.route@.len(),
                v <= n,
                routes(solutions@) =~= swap_neighbours(self.route@, start as int).take(v as int),
                forall|k: int| 0 <= k < solutions@.len() ==> #[trigger] solutions@[k].fits(graph),
            decreases n - v,
        {
            let new_route = swap_route(self.route.as_slice(), start, self.route[v]);
            proof {
                lemma_swapped_perm(self.route@, graph.size(), start as int, self.route@[v as int] as int);
            }
            let ghost before = routes(solutions@);
            solutions.push(Solution::priced(new_route, graph));
            proof {
                assert(routes(solutions@) =~= before.push(
                    swap_neighbours(self.route@, start as int)[v as int],
                ));
            }
            v += 1;
        }
        solutions
    }

    fn neighbourhood_by_shift(&self, graph: &CostMatrix, start: usize) -> (r: Vec<Solution>)
        requires
            self.fits(graph),
            start < self.route@.len(),
        ensures
            routes(r@) == shift_neighbours(self.route@, start as int),
            forall|k: int| 0 <= k < r@.len() ==> #[trigger] r@[k].fits(graph),
    {
        let mut solutions: Vec<Solution> = Vec::new();
        let n = self.route.len();
        let mut target_pos: usize = 0;
        while target_pos < n
            invariant
                self.fits(graph),
                start < n,
                n == self.route@.len(),
                target_pos <= n,
                routes(solutions@) =~= shift_neighbours(self.route@, start as int).take(
                    if target_pos <= start { target_pos as int } else { target_pos - 1 },
                ),
                forall|k: int| 0 <= k < solutions@.len() ==> #[trigger] solutions@[k].fits(graph),
            decreases n - target_pos,
        {
            if target_pos != start {
                let new_route = move_segment(self.route.as_slice(), start, 1, target_pos);
                proof {
                    lemma_moved_perm(self.route@, graph.size(), start as int, 1, target_pos as int);
                }
                let ghost before = routes(solutions@);
                solutions.push(Solution::priced(new_route, graph));
                proof {
                    assert(routes(solutions@) =~= before.push(
                        shift_neighbours(self.route@, start as int)[if target_pos < start {
                            target_pos as int
                        } else {
                            target_pos - 1
                        }],
                    ));
                }
            }
            target_pos += 1;
        }
        solutions
    }

    fn neighbourhood_by_or_opt(&self, graph: &CostMatrix) -> (r: Vec<Solution>)
        requires
            self.fits(graph),
        ensures
            routes(r@) == or_opt_from(self.route@, 1, 0),
            forall|k: int| 0 <= k < r@.len() ==> #[trigger] r@[k].fits(graph),
    {
        let ghost full = or_opt_from(self.route@, 1, 0);
        let mut neighbours: Vec<Solution> = Vec::new();
        let n = self.route.len();
        let longest: usize = if n < 3 { n } else { 3 };
        let mut seq_len: usize = 1;
        while seq_len <= longest
            invariant
                self.fits(graph),
                n == self.route@.len(),
                longest == if n < 3 { n } else { 3 },
                1 <= seq_len <= longest + 1,
                full == or_opt_from(self.route@, 1, 0),
                full == routes(neighbours@) + or_opt_from(self.route@, seq_len as int, 0),
                forall|k: int| 0 <= k < neighbours@.len() ==> #[trigger] neighbours@[k].fits(graph),
            decreases longest + 1 - seq_len,
        {
            let mut i: usize = 0;
            while i <= n - seq_len
                invariant
                    self.fits(graph),
                    n == self.route@.len(),
                    longest == if n < 3 { n } else { 3 },
                    1 <= seq_len <= longest,
                    i + seq_len <= n + 1,
                    full == routes(neighbours@) + or_opt_from(self.route@, seq_len as int, i as int),
                    forall|k: int| 0 <= k < neighbours@.len() ==> #[trigger] neighbours@[k].fits(graph),
                decreases n + 1 - i,
            {
                let ghost block = segment_moves(self.route@, i as int, seq_len as int);
                let ghost rest = or_opt_from(self.route@, seq_len as int, i + 1);
                let mut insert_pos: usize = 0;
                while insert_pos < n - seq_len
                    invariant
                        self.fits(graph),
                        n == self.route@.len(),
                        1 <= seq_len,
                        i + seq_len <= n,
                        insert_pos <= n - seq_len,
                        block == segment_moves(self.route@, i as int, seq_len as int),
                        full == routes(neighbours@) + block.subrange(insert_pos as int, block.len() as int) + rest,
                        forall|k: int| 0 <= k < neighbours@.len() ==> #[trigger] neighbours@[k].fits(graph),
                    decreases n - seq_len - insert_pos,
                {
                    let new_route = move_segment(self.route.as_slice(), i, seq_len, insert_pos);
                    proof {
                        lemma_moved_perm(self.route@, graph.size(), i as int, seq_len as int, insert_pos as int);
                    }
                    let ghost before = routes(neighbours@);
                    neighbours.push(Solution::priced(new_route, graph));
                    proof {
                        assert(routes(neighbours@) =~= before.push(block[insert_pos as int]));
                        assert(before + block.subrange(insert_pos as int, block.len() as int) + rest
                            =~= before.push(block[insert_pos as int]) + block.subrange(insert_pos + 1, block.len() as int) + rest);
                    }
                    insert_pos += 1;
                }
                proof {
                    assert(block.subrange(insert_pos as int, block.len() as int) =~= Seq::<Seq<usize>>::empty());
                    assert(routes(neighbours@) + Seq::<Seq<usize>>::empty() =~= routes(neighbours@));
                }
                i += 1;
            }
            seq_len += 1;
        }
        proof {
            assert(routes(neighbours@) + Seq::<Seq<usize>>::empty() =~= routes(neighbours@));
        }
        neighbours
    }

    /// The first strictly cheapest of `candidates`, if it is cheaper than `current`.
    fn pick_best(candidates: Vec<Solution>, current: &Solution, graph: &CostMatrix) -> (r: Option<Solution>)
        requires
            current.fits(graph),
            forall|k: int| 0 <= k < candidates@.len() ==> #[trigger] candidates@[k].fits(graph),
        ensures
            r.is_none() ==> best_of(graph, routes(candidates@), current.route@) == current.route@,
            r.is_some() ==> r.unwrap().fits(graph) && r.unwrap().cost < current.cost
                && r.unwrap().route@ == best_of(graph, routes(candidates@), current.route@),
    {
        let ghost all = routes(candidates@);
        let mut candidates = candidates;
        let mut best: Option<usize> = None;
        let mut best_cost: u64 = current.cost;
        let mut k: usize = 0;
        proof {
            assert(all.skip(0) =~= all);
        }
        while k < candidates.len()
            invariant
                current.fits(graph),
                all == routes(candidates@),
                forall|t: int| 0 <= t < candidates@.len() ==> #[trigger] candidates@[t].fits(graph),
                k <= candidates@.len(),
                best.is_some() ==> best.unwrap() < k && best_cost < current.cost
                    && best_cost == candidates@[best.unwrap() as int].cost,
                best.is_none() ==> best_cost == current.cost,
                best_of(graph, all, current.route@) == best_of(
                    graph,
                    all.skip(k as int),
                    if best.is_some() { all[best.unwrap() as int] } else { current.route@ },
                ),
            decreases candidates@.len() - k,
        {
            proof {
                assert(all.skip(k as int).drop_first() =~= all.skip(k + 1));
                assert(all.skip(k as int)[0] == all[k as int]);
                assert(candidates@[k as int].fits(graph));
                if best.is_some() {
                    assert(candidates@[best.unwrap() as int].fits(graph));
                }
            }
            if candidates[k].cost < best_cost {
                best = Some(k);
                best_cost = candidates[k].cost;
            }
            k += 1;
        }
        match best {
            None => None,
            Some(b) => Some(candidates.remove(b)),
        }
    }

    /// Best-improvement descent over the exchanges of position `start` with
    /// the position named by each entry of the tour.
    pub fn swap_search(&self, graph: &CostMatrix, start: usize) -> (r: Solution)
        requires
            self.fits(graph),
            start < self.route@.len(),
        ensures
            r.fits(graph),
            r.route@ == descend(graph, self.route@, swap_moves(start as int)),
    {
        let mut best = self.duplicate();
        loop
            invariant
                best.fits(graph),
                start < best.route@.len(),
                descend(graph, self.route@, swap_moves(start as int)) == descend(
                    graph,
                    best.route@,
                    swap_moves(start as int),
                ),
            decreases best.cost,
        {
            let solutions = best.neighbourhood_by_swap(graph, start);
            match Solution::pick_best(solutions, &best, graph) {
                Some(s) => {
                    best = s;
                },
                None => {
                    return best;
                },
            }
        }
    }

    /// Best-improvement descent over the reinsertions of the node at position `start`.
    pub fn shift_search(&self, graph: &CostMatrix, start: usize) -> (r: Solution)
        requires
            self.fits(graph),
            start < self.route@.len(),
        ensures
            r.fits(graph),
            r.route@ == descend(graph, self.route@, shift_moves(start as int)),
    {
        let mut best = self.duplicate();
        loop
            invariant
                best.fits(graph),
                start < best.route@.len(),
                descend(graph, self.route@, shift_moves(start as int)) == descend(
                    graph,
                    best.route@,
                    shift_moves(start as int),
                ),
            decreases best.cost,
        {
            let solutions = best.neighbourhood_by_shift(graph, start);
            match Solution::pick_best(solutions, &best, graph) {
                Some(s) => {
                    best = s;
                },
                None => {
                    return best;
                },
            }
        }
    }

    /// Best-improvement descent over the moves of segments of one to three nodes.
    pub fn or_opt_search(&self, graph: &CostMatrix) -> (r: Solution)
        requires
            self.fits(graph),
        ensures
            r.fits(graph),
            r.route@ == descend(graph, self.route@, or_opt_moves()),
    {
        let mut best = self.duplicate();
        loop
            invariant
                best.fits(graph),
                descend(graph, self.route@, or_opt_moves()) == descend(
                    graph,
                    best.route@,
                    or_opt_moves(),
                ),
            decreases best.cost,
        {
            let solutions = best.neighbourhood_by_or_opt(graph);
            match Solution::pick_best(solutions, &best, graph) {
                Some(s) => {
                    best = s;
                },
                None => {
                    return best;
                },
            }
        }
    }

    /// The first reversal of a segment `i + 1 ..= j`, scanning `i` and then
    /// `j > i + 1` upwards, that makes the tour strictly cheaper; the tour
    /// unchanged when none does.
    pub fn two_opt_step(&self, graph: &CostMatrix) -> (r: Solution)
        requires
            self.fits(graph),
        ensures
            r.fits(graph),
            r.route@ == two_opt_scan(graph, self.route@, 0, 2),
    {
        let n = self.route.len();
        let mut i: usize = 0;
        while n > 2 && i < n - 2
            invariant
                self.fits(graph),
                n == self.route@.len(),
                two_opt_scan(graph, self.route@, 0, 2) == two_opt_scan(graph, self.route@, i as int, i + 2),
            decreases n - i,
        {
            let mut j: usize = i + 2;
            while j < n
                invariant
                    self.fits(graph),
                    n == self.route@.len(),
                    i + 2 < n,
                    i + 2 <= j <= n,
                    two_opt_scan(graph, self.route@, 0, 2) == two_opt_scan(graph, self.route@, i as int, j as int),
                decreases n - j,
            {
                let new_route = reverse_route(self.route.as_slice(), i, j);
                proof {
                    lemma_reversed_perm(self.route@, graph.size(), i as int, j as int);
                }
                let new_cost = Solution::calculate_cost(new_route.as_slice(), graph);
                if new_cost < self.cost {
                    return Solution { route: new_route, cost: new_cost };
                }
                j += 1;
            }
            i += 1;
        }
        self.duplicate()
    }
}

impl LocalSearch<CostMatrix> for Solution {
    open spec fn valid_on(&self, graph: &CostMatrix) -> bool {
        self.fits(graph)
    }

    open spec fn holds_position(&self, start: usize) -> bool {
        start < self.route@.len()
    }

    open spec fn total(&self) -> int {
        self.cost as int
    }

    /// The swap descent from `self`, which no exchange with `start` improves.
    open spec fn swap_post(&self, graph: &CostMatrix, start: usize, r: &Solution) -> bool {
        &&& r.route@ == descend(graph, self.route@, swap_moves(start as int))
        &&& local_optimum(graph, r.route@, swap_neighbours(r.route@, start as int))
    }

    /// The first strictly improving reversal of `self` in scan order, or `self`.
    open spec fn two_opt_post(&self, graph: &CostMatrix, r: &Solution) -> bool {
        r.route@ == two_opt_scan(graph, self.route@, 0, 2)
    }

    /// The shift descent from `self`, which no reinsertion of the node at `start` improves.
    open spec fn shift_post(&self, graph: &CostMatrix, start: usize, r: &Solution) -> bool {
        &&& r.route@ == descend(graph, self.route@, shift_moves(start as int))
        &&& local_optimum(graph, r.route@, shift_neighbours(r.route@, start as int))
    }

    /// The or-opt descent from `self`, which no segment move improves.
    open spec fn or_opt_post(&self, graph: &CostMatrix, r: &Solution) -> bool {
        &&& r.route@ == descend(graph, self.route@, or_opt_moves())
        &&& local_optimum(graph, r.route@, or_opt_from(r.route@, 1, 0))
    }

    fn swap(&self, graph: &CostMatrix, start: usize) -> (r: Solution) {
        let r = self.swap_search(graph, start);
        proof {
            lemma_descend_cost(graph, self.route@, swap_moves(start as int));
            lemma_descend_local_optimum(graph, self.route@, swap_moves(start as int));
        }
        r
    }

    fn two_opt(&self, graph: &CostMatrix) -> (r: Solution) {
        let r = self.two_opt_step(graph);
        proof {
            lemma_two_opt_single_move(graph, self.route@);
        }
        r
    }

    fn shift(&self, graph: &CostMatrix, start: usize) -> (r: Solution) {
        let r = self.shift_search(graph, start);
        proof {
            lemma_descend_cost(graph, self.route@, shift_moves(start as int));
            lemma_descend_local_optimum(graph, self.route@, shift_moves(start as int));
        }
        r
    }

    fn or_opt(&self, graph: &CostMatrix) -> (r: Solution) {
        let r = self.or_opt_search(graph);
        proof {
            lemma_descend_cost(graph, self.route@, or_opt_moves());
            lemma_descend_local_optimum(graph, self.route@, or_opt_moves());
        }
        r
    }
}

/// No tour of `cands` is strictly cheaper than `r`.
pub open spec fn local_optimum(m: &CostMatrix, r: Seq<usize>, cands: Seq<Seq<usize>>) -> bool {
    forall|k: int| 0 <= k < cands.len() ==> tour_cost(m, #[trigger] cands[k]) >= tour_cost(m, r)
}

/// A scan from `acc` ends on a tour no dearer than `acc` or than any candidate.
pub proof fn lemma_best_of_min(m: &CostMatrix, cands: Seq<Seq<usize>>, acc: Seq<usize>)
    ensures
        tour_cost(m, best_of(m, cands, acc)) <= tour_cost(m, acc),
        forall|k: int| 0 <= k < cands.len() ==> tour_cost(m, best_of(m, cands, acc)) <= tour_cost(
            m,
            #[trigger] cands[k],
        ),
    decreases cands.len(),
{
    if cands.len() > 0 {
        let rest = cands.drop_first();
        lemma_best_of_min(m, rest, better(m, cands[0], acc));
        assert forall|k: int| 0 <= k < cands.len() implies tour_cost(m, best_of(m, cands, acc))
            <= tour_cost(m, #[trigger] cands[k]) by {
            if k > 0 {
                assert(cands[k] == rest[k - 1]);
            }
        }
    }
}

/// The swap, shift and or-opt descents end on a local optimum: none of the
/// neighbours of their result is strictly cheaper.
pub proof fn lemma_descend_local_optimum(
    m: &CostMatrix,
    r: Seq<usize>,
    nb: spec_fn(Seq<usize>) -> Seq<Seq<usize>>,
)
    ensures
        local_optimum(m, descend(m, r, nb), nb(descend(m, r, nb))),
    decreases tour_cost(m, r),
{
    let next = best_of(m, nb(r), r);
    if 0 <= tour_cost(m, next) < tour_cost(m, r) {
        lemma_descend_local_optimum(m, next, nb);
    } else {
        lemma_tour_cost_nonneg(m, next);
        lemma_best_of_min(m, nb(r), r);
    }
}

/// The swap, shift and or-opt descents never raise a tour's cost.
pub proof fn lemma_descend_cost(m: &CostMatrix, r: Seq<usize>, nb: spec_fn(Seq<usize>) -> Seq<Seq<usize>>)
    ensures
        tour_cost(m, descend(m, r, nb)) <= tour_cost(m, r),
    decreases tour_cost(m, r),
{
    let next = best_of(m, nb(r), r);
    if 0 <= tour_cost(m, next) < tour_cost(m, r) {
        lemma_descend_cost(m, next, nb);
    }
}

/// The descents end where no neighbour is strictly cheaper: applied again to
/// their own result they change nothing.
pub proof fn lemma_descend_fixed_point(m: &CostMatrix, r: Seq<usize>, nb: spec_fn(Seq<usize>) -> Seq<Seq<usize>>)
    requires
        m.wf(),
    ensures
        descend(m, descend(m, r, nb), nb) == descend(m, r, nb),
    decreases tour_cost(m, r),
{
    let next = best_of(m, nb(r), r);
    if 0 <= tour_cost(m, next) < tour_cost(m, r) {
        lemma_descend_fixed_point(m, next, nb);
    } else {
        lemma_tour_cost_nonneg(m, next);
    }
}

/// Scanning from `(i, j)` on, the 2-opt step returns either the tour itself,
/// when no reversal from there on improves it, or one strictly cheaper reversal.
pub proof fn lemma_two_opt_scan(m: &CostMatrix, r: Seq<usize>, i: int, j: int)
    requires
        0 <= i,
        i + 2 <= j,
    ensures
        two_opt_scan(m, r, i, j) == r || (exists|a: int, b: int|
            0 <= a && a + 2 <= b < r.len() && two_opt_scan(m, r, i, j) == #[trigger] reversed(r, a, b)
                && tour_cost(m, reversed(r, a, b)) < tour_cost(m, r)),
        two_opt_scan(m, r, i, j) == r ==> forall|a: int, b: int|
            (a == i && j <= b < r.len() || i < a && a + 2 <= b < r.len()) ==> tour_cost(
                m,
                #[trigger] reversed(r, a, b),
            ) >= tour_cost(m, r),
    decreases r.len() - i, r.len() + 1 - j,
{
    if i + 2 >= r.len() {
    } else if j >= r.len() {
        lemma_two_opt_scan(m, r, i + 1, i + 3);
    } else if tour_cost(m, reversed(r, i, j)) < tour_cost(m, r) {
    } else {
        lemma_two_opt_scan(m, r, i, j + 1);
    }
}

/// A 2-opt step leaves a tour with no improving reversal unchanged; on a tour
/// with one, it applies exactly one reversal, which lowers the cost.
pub proof fn lemma_two_opt_single_move(m: &CostMatrix, r: Seq<usize>)
    ensures
        (forall|a: int, b: int| 0 <= a && a + 2 <= b < r.len() ==> tour_cost(m, #[trigger] reversed(r, a, b))
            >= tour_cost(m, r)) ==> two_opt_scan(m, r, 0, 2) == r,
        (exists|a: int, b: int| 0 <= a && a + 2 <= b < r.len() && tour_cost(m, #[trigger] reversed(r, a, b))
            < tour_cost(m, r)) ==> exists|a: int, b: int|
            0 <= a && a + 2 <= b < r.len() && two_opt_scan(m, r, 0, 2) == #[trigger] reversed(r, a, b)
                && tour_cost(m, reversed(r, a, b)) < tour_cost(m, r),
{
    lemma_two_opt_scan(m, r, 0, 2);
}

} // verus!
