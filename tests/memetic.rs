use graphs_algorithms::evolution::{
    best_of_population, cross, cross_from, fit, generation, individual_to_solution, init,
    legitimate, memetic_algorithm, mutate, refine, ConfigError, MAX_PSIZE,
};
use graphs_algorithms::local_search::{LocalSearch, Solution};
use graphs_algorithms::matrix::CostMatrix;
use rand::rngs::StdRng;
use rand::SeedableRng;

fn four() -> CostMatrix {
    CostMatrix::new(vec![
        vec![0, 1, 2, 2],
        vec![1, 0, 2, 3],
        vec![2, 2, 0, 1],
        vec![2, 3, 1, 0],
    ])
    .unwrap()
}

fn five() -> CostMatrix {
    CostMatrix::new(vec![
        vec![0, 3, 9, 4, 7],
        vec![3, 0, 2, 8, 6],
        vec![9, 2, 0, 5, 1],
        vec![4, 8, 5, 0, 3],
        vec![7, 6, 1, 3, 0],
    ])
    .unwrap()
}

fn is_permutation(r: &[usize], n: usize) -> bool {
    let mut seen = vec![false; n];
    if r.len() != n {
        return false;
    }
    for &x in r {
        if x >= n || seen[x] {
            return false;
        }
        seen[x] = true;
    }
    true
}

fn solution(route: Vec<usize>, g: &CostMatrix) -> Solution {
    individual_to_solution(&route, g)
}

#[test]
fn matrix_must_be_square() {
    assert!(CostMatrix::new(vec![vec![0, 1], vec![1]]).is_none());
    assert!(CostMatrix::new(vec![]).is_some());
    let g = four();
    assert_eq!(g.node_count(), 4);
    assert_eq!(g.cost(1, 3), 3);
    assert_eq!(g.cost(3, 1), 3);
}

#[test]
fn cost_of_tours() {
    let g = four();
    assert_eq!(Solution::calculate_cost(&[0, 1, 3, 2], &g), 7);
    assert_eq!(Solution::calculate_cost(&[0, 1, 2, 3], &g), 6);
    assert_eq!(Solution::calculate_cost(&[0, 2, 1, 3], &g), 9);
    assert_eq!(fit(&vec![0, 2, 4, 1, 3], &five()), 28);
}

#[test]
fn cost_is_the_same_from_every_start() {
    let g = five();
    let r = vec![0, 2, 4, 1, 3];
    let base = Solution::calculate_cost(&r, &g);
    for k in 0..r.len() {
        let mut rotated = r[k..].to_vec();
        rotated.extend_from_slice(&r[..k]);
        assert_eq!(Solution::calculate_cost(&rotated, &g), base);
    }
}

#[test]
fn cost_adds_up_across_a_split() {
    let g = five();
    let r = [0usize, 2, 4, 1, 3];
    let path = |s: &[usize]| -> u64 { s.windows(2).map(|w| g.cost(w[0], w[1]) as u64).sum() };
    for k in 1..r.len() {
        let joined = path(&r[..k]) + g.cost(r[k - 1], r[k]) as u64 + path(&r[k..]);
        assert_eq!(joined + g.cost(r[4], r[0]) as u64, Solution::calculate_cost(&r, &g));
    }
}

#[test]
fn legitimate_successor() {
    // The first unvisited node after 2 in the route is 3.
    assert_eq!(legitimate(2, &[true, false, true, false], &[0, 2, 1, 3]), 1);
    // Nothing unvisited follows 3: the lowest unvisited node.
    assert_eq!(legitimate(3, &[false, true, false, true], &[0, 2, 1, 3]), 0);
    assert_eq!(legitimate(1, &[false, true, false, false], &[1, 2, 3, 0]), 2);
}

#[test]
fn crossover_replaces_first_worse_parent() {
    let g = four();
    let mut p1 = vec![0, 2, 1, 3];
    let mut p2 = vec![2, 0, 3, 1];
    assert_eq!(cross_from(&mut p1, &mut p2, 2, &g), Some(0));
    assert_eq!(p1, vec![2, 0, 1, 3]);
    assert_eq!(p2, vec![2, 0, 3, 1]);
    assert!(fit(&p1, &g) < 9);
}

#[test]
fn crossover_keeps_parents_when_not_better() {
    let g = four();
    let mut p1 = vec![0, 2, 1, 3];
    let mut p2 = vec![2, 0, 3, 1];
    assert_eq!(cross_from(&mut p1, &mut p2, 0, &g), None);
    assert_eq!(p1, vec![0, 2, 1, 3]);
    assert_eq!(p2, vec![2, 0, 3, 1]);
}

#[test]
fn crossover_replaces_second_parent() {
    let g = five();
    let mut p1 = vec![0, 2, 4, 1, 3];
    let mut p2 = vec![3, 1, 4, 0, 2];
    assert_eq!(cross_from(&mut p1, &mut p2, 0, &g), Some(1));
    assert_eq!(p1, vec![0, 2, 4, 1, 3]);
    assert_eq!(p2, vec![0, 2, 4, 1, 3]);
}

#[test]
fn random_crossover_keeps_permutations() {
    let g = five();
    let mut rng = StdRng::seed_from_u64(7);
    for _ in 0..20 {
        let mut p1 = vec![0, 2, 4, 1, 3];
        let mut p2 = vec![3, 1, 4, 0, 2];
        let c1 = fit(&p1, &g);
        let c2 = fit(&p2, &g);
        match cross(&mut rng, &mut p1, &mut p2, &g) {
            Some(0) => assert!(fit(&p1, &g) < c1),
            Some(1) => assert!(fit(&p2, &g) < c2),
            None => {}
            Some(_) => panic!("no third parent"),
        }
        assert!(is_permutation(&p1, 5));
        assert!(is_permutation(&p2, 5));
    }
}

#[test]
fn mutation_swaps_neighbours() {
    let mut rng = StdRng::seed_from_u64(3);
    for _ in 0..20 {
        let before = vec![0, 2, 4, 1, 3];
        let mut after = before.clone();
        mutate(&mut rng, &mut after);
        assert!(is_permutation(&after, 5));
        let diff: Vec<usize> = (0..5).filter(|&k| before[k] != after[k]).collect();
        assert_eq!(diff.len(), 2);
        assert_eq!(diff[0] + 1, diff[1]);
    }
}

#[test]
fn init_fills_with_permutations() {
    let mut rng = StdRng::seed_from_u64(11);
    let mut p = vec![Vec::new(); 6];
    init(&mut rng, &mut p, 5);
    assert_eq!(p.len(), 6);
    for r in &p {
        assert!(is_permutation(r, 5));
    }
    assert!(p.iter().any(|r| r != &vec![0, 1, 2, 3, 4]));
}

#[test]
fn swap_descent() {
    let g = four();
    let s = solution(vec![0, 2, 1, 3], &g).swap(&g, 0);
    assert_eq!(s.route, vec![3, 2, 1, 0]);
    assert_eq!(s.cost, 6);
    let s = solution(vec![0, 2, 4, 1, 3], &five()).swap(&five(), 0);
    assert_eq!(s.route, vec![1, 2, 4, 3, 0]);
    assert_eq!(s.cost, 13);
}

#[test]
fn shift_descent() {
    let g = four();
    let s = solution(vec![0, 2, 1, 3], &g).shift(&g, 0);
    assert_eq!(s.route, vec![2, 1, 0, 3]);
    assert_eq!(s.cost, 6);
    let s = solution(vec![0, 2, 4, 1, 3], &five()).shift(&five(), 0);
    assert_eq!(s.route, vec![4, 2, 1, 0, 3]);
}

#[test]
fn or_opt_descent() {
    let g = four();
    let s = solution(vec![2, 0, 3, 1], &g).or_opt(&g);
    assert_eq!(s.route, vec![0, 3, 2, 1]);
    let s = solution(vec![0, 2, 4, 1, 3], &five()).or_opt(&five());
    assert_eq!(s.route, vec![0, 1, 2, 4, 3]);
    assert_eq!(s.cost, 13);
}

#[test]
fn two_opt_makes_one_move() {
    let g = five();
    let s = solution(vec![0, 2, 4, 1, 3], &g).two_opt(&g);
    assert_eq!(s.route, vec![0, 4, 2, 1, 3]);
    assert_eq!(s.cost, 22);
    let s = solution(vec![2, 0, 3, 1], &four()).two_opt(&four());
    assert_eq!(s.route, vec![2, 3, 0, 1]);
}

#[test]
fn two_opt_leaves_optimum_alone() {
    let g = four();
    let s = solution(vec![0, 1, 2, 3], &g).two_opt(&g);
    assert_eq!(s.route, vec![0, 1, 2, 3]);
    assert_eq!(s.cost, 6);
}

#[test]
fn descents_never_raise_cost_and_are_idempotent() {
    let g = five();
    let start = solution(vec![0, 2, 4, 1, 3], &g);
    let results = [start.swap(&g, 1), start.shift(&g, 2), start.or_opt(&g)];
    for (k, r) in results.iter().enumerate() {
        assert!(r.cost <= start.cost);
        assert!(is_permutation(&r.route, 5));
        assert_eq!(r.cost, Solution::calculate_cost(&r.route, &g));
        let again = match k {
            0 => r.swap(&g, 1),
            1 => r.shift(&g, 2),
            _ => r.or_opt(&g),
        };
        assert_eq!(again.route, r.route);
        assert_eq!(again.cost, r.cost);
    }
}

#[test]
fn refine_picks_operator_by_draw() {
    let g = five();
    let r = vec![0, 2, 4, 1, 3];
    assert_eq!(refine(solution(r.clone(), &g), 1, &g).route, vec![4, 2, 1, 0, 3]);
    assert_eq!(refine(solution(r.clone(), &g), 25, &g).route, vec![1, 2, 4, 3, 0]);
    assert_eq!(refine(solution(r.clone(), &g), 74, &g).route, vec![0, 4, 2, 1, 3]);
    assert_eq!(refine(solution(r.clone(), &g), 100, &g).route, vec![0, 1, 2, 4, 3]);
}

#[test]
fn generation_keeps_population_valid() {
    let g = five();
    let mut rng = StdRng::seed_from_u64(5);
    let mut p = vec![Vec::new(); 7];
    init(&mut rng, &mut p, 5);
    for _ in 0..10 {
        generation(&mut rng, 1, 1, &mut p, &g);
    }
    assert_eq!(p.len(), 7);
    for r in &p {
        assert!(is_permutation(r, 5));
    }
}

#[test]
fn best_of_population_is_cheapest() {
    let g = four();
    let p = vec![vec![0, 2, 1, 3], vec![0, 1, 3, 2], vec![0, 1, 2, 3], vec![3, 2, 1, 0]];
    let best = best_of_population(&p, &g).unwrap();
    assert_eq!(best.route, vec![0, 1, 2, 3]);
    assert_eq!(best.cost, 6);
    assert!(best_of_population(&Vec::new(), &g).is_none());
}

#[test]
fn run_reaches_optimum_on_four_nodes() {
    let g = four();
    let mut rng = StdRng::seed_from_u64(42);
    let best = memetic_algorithm(&mut rng, &g, 50, 10, 1, 2).unwrap();
    // 0 -> 1 -> 3 -> 2 -> 0 costs 7; the optimum, 0 -> 1 -> 2 -> 3 -> 0, costs 6.
    assert!(best.cost <= 7);
    assert_eq!(best.cost, 6);
    assert!(is_permutation(&best.route, 4));
}

#[test]
fn run_rejects_large_population() {
    let g = four();
    let mut rng = StdRng::seed_from_u64(1);
    assert!(matches!(
        memetic_algorithm(&mut rng, &g, 10, MAX_PSIZE + 1, 1, 2),
        Err(ConfigError::PopulationTooLarge)
    ));
    assert!(matches!(memetic_algorithm(&mut rng, &g, 1, 200, 1, 2), Ok(_)));
}

#[test]
fn run_rejects_bad_mutation_rate() {
    let g = four();
    let mut rng = StdRng::seed_from_u64(1);
    assert!(matches!(
        memetic_algorithm(&mut rng, &g, 10, 10, 3, 2),
        Err(ConfigError::InvalidMutationRate)
    ));
    assert!(matches!(
        memetic_algorithm(&mut rng, &g, 10, 10, 0, 0),
        Err(ConfigError::InvalidMutationRate)
    ));
}

#[test]
fn run_rejects_zero_counts() {
    let g = four();
    let mut rng = StdRng::seed_from_u64(1);
    assert!(matches!(
        memetic_algorithm(&mut rng, &g, 10, 0, 0, 1),
        Err(ConfigError::EmptyPopulation)
    ));
    assert!(matches!(
        memetic_algorithm(&mut rng, &g, 0, 10, 0, 1),
        Err(ConfigError::NoGenerations)
    ));
    assert!(matches!(
        memetic_algorithm(&mut rng, &g, 0, 201, 0, 1),
        Err(ConfigError::PopulationTooLarge)
    ));
}

#[test]
fn operators_on_four_nodes() {
    let g = four();
    let s = solution(vec![0, 1, 3, 2], &g);
    assert_eq!(s.cost, 7);
    for r in [s.swap(&g, 0), s.shift(&g, 0), s.or_opt(&g)] {
        assert_eq!(r.route, vec![1, 0, 3, 2]);
        assert_eq!(r.cost, 6);
    }
    let r = s.two_opt(&g);
    assert_eq!(r.route, vec![0, 1, 2, 3]);
    assert_eq!(r.cost, 6);
}

#[test]
fn generation_without_mutation_never_loses_the_best() {
    let g = five();
    let mut rng = StdRng::seed_from_u64(9);
    let mut p = vec![Vec::new(); 8];
    init(&mut rng, &mut p, 5);
    let mut best = p.iter().map(|r| fit(r, &g)).min().unwrap();
    for _ in 0..10 {
        let before: Vec<u64> = p.iter().map(|r| fit(r, &g)).collect();
        generation(&mut rng, 0, 1, &mut p, &g);
        let after = p.iter().map(|r| fit(r, &g)).min().unwrap();
        assert!(after <= best);
        assert!(p.iter().map(|r| fit(r, &g)).sum::<u64>() <= before.iter().sum::<u64>());
        best = after;
    }
}
