use rand::rngs::StdRng;
use rand::SeedableRng;
use tsp_ga::dataset::{Dataset, Matrix};
use tsp_ga::generation::Generation;
use tsp_ga::individual::Individual;
use tsp_ga::InvariantViolation;

fn four_node_dataset() -> Dataset {
    let labels = vec!["A".to_string(), "B".to_string(), "C".to_string(), "D".to_string()];
    let m = Matrix::Distances(vec![
        vec![0, 1, 4, 3],
        vec![1, 0, 2, 5],
        vec![4, 2, 0, 1],
        vec![3, 5, 1, 0],
    ]);
    Dataset::new(labels, m).unwrap()
}

fn manual_length(ds: &Dataset, nodes: &[usize]) -> u64 {
    let mut total = 0;
    for k in 0..nodes.len() - 1 {
        total += ds.distance_matrix.get(nodes[k], nodes[k + 1]);
    }
    total
}

fn is_permutation_of_all(nodes: &[usize], size: usize) -> bool {
    let mut seen = vec![false; size];
    if nodes.len() != size {
        return false;
    }
    for &n in nodes {
        if n >= size || seen[n] {
            return false;
        }
        seen[n] = true;
    }
    true
}

#[test]
fn known_tour_has_known_length() {
    // The path A -> B -> C -> D costs 1 + 2 + 1.
    let ds = four_node_dataset();
    assert_eq!(manual_length(&ds, &[0, 1, 2, 3]), 4);
}

#[test]
fn two_node_tours_cost_the_single_edge() {
    // With two nodes there is exactly one edge, whichever way it is walked.
    let labels = vec!["X".to_string(), "Y".to_string()];
    let m = Matrix::Distances(vec![vec![0, 7], vec![7, 0]]);
    let ds = Dataset::new(labels, m).unwrap();
    let mut rng = StdRng::seed_from_u64(3);
    for _ in 0..10 {
        let ind = Individual::new(&ds, &mut rng);
        assert_eq!(ind.length, 7);
    }
}

#[test]
fn random_tours_are_permutations_with_consistent_lengths() {
    let ds = four_node_dataset();
    let mut rng = StdRng::seed_from_u64(11);
    for _ in 0..25 {
        let ind = Individual::new(&ds, &mut rng);
        assert!(is_permutation_of_all(&ind.nodes, ds.size));
        assert_eq!(ind.length, manual_length(&ds, &ind.nodes));
    }
}

#[test]
fn crossover_output_is_a_permutation_starting_at_first_parent() {
    let ds = four_node_dataset();
    let mut rng = StdRng::seed_from_u64(17);
    for _ in 0..25 {
        let p1 = Individual::new(&ds, &mut rng);
        let p2 = Individual::new(&ds, &mut rng);
        let child = Individual::crossover(&p1, &p2, &ds);
        assert!(is_permutation_of_all(&child.nodes, ds.size));
        assert_eq!(child.nodes[0], p1.nodes[0]);
        assert_eq!(child.length, manual_length(&ds, &child.nodes));
    }
}

#[test]
fn crossover_of_identical_parents_returns_the_parent() {
    let ds = four_node_dataset();
    let nodes = vec![2usize, 0, 3, 1];
    let length = manual_length(&ds, &nodes);
    let a = Individual { size: 4, nodes: nodes.clone(), length };
    let b = Individual { size: 4, nodes: nodes.clone(), length };
    let child = Individual::crossover(&a, &b, &ds);
    assert_eq!(child.nodes, nodes);
    assert_eq!(child.length, length);
}

#[test]
fn mutate_keeps_the_permutation_and_length_in_step() {
    let ds = four_node_dataset();
    let mut rng = StdRng::seed_from_u64(23);
    let base = Individual::new(&ds, &mut rng);
    for _ in 0..25 {
        let child = base.mutate(&mut rng, &ds, 3, 5);
        assert!(is_permutation_of_all(&child.nodes, ds.size));
        assert_eq!(child.length, manual_length(&ds, &child.nodes));
    }
}

#[test]
fn perturbation_reverses_then_exchanges() {
    let ds = four_node_dataset();
    let base = Individual { size: 4, nodes: vec![0, 1, 2, 3], length: 4 };
    // Reversing [1, 2] gives [0, 2, 1, 3]; node 0's rank-1 neighbor is node
    // 1, which sits at position 2, so positions 0 and 2 swap.
    let child = base.perturbed(&ds, 1, 2, 0, 1);
    assert_eq!(child.nodes, vec![1, 2, 0, 3]);
    assert_eq!(child.length, manual_length(&ds, &child.nodes));
    assert_eq!(child.length, 9);
}

#[test]
fn perturbation_exchange_with_self_changes_nothing_more() {
    let ds = four_node_dataset();
    let base = Individual { size: 4, nodes: vec![0, 1, 2, 3], length: 4 };
    // Node 0's rank-0 neighbor is node 0 itself, so only the reversal acts.
    let child = base.perturbed(&ds, 1, 2, 0, 0);
    assert_eq!(child.nodes, vec![0, 2, 1, 3]);
    assert_eq!(child.length, 11);
}

#[test]
fn mutate_accepts_every_lookup_below_size() {
    // Ranks below `size` are valid for every draw; `size` itself is the
    // caller's documented precondition to reject.
    let ds = four_node_dataset();
    let mut rng = StdRng::seed_from_u64(29);
    let base = Individual::new(&ds, &mut rng);
    for k in 1..ds.size {
        let child = base.mutate(&mut rng, &ds, k, 2);
        assert!(is_permutation_of_all(&child.nodes, ds.size));
    }
}

#[test]
fn initial_population_is_sorted() {
    let ds = four_node_dataset();
    let mut rng = StdRng::seed_from_u64(31);
    let g = Generation::new(1, 10, 30, &ds, &mut rng);
    assert_eq!(g.id, 1);
    assert_eq!(g.population.len(), 30);
    for w in g.population.windows(2) {
        assert!(w[0].length <= w[1].length);
    }
}

#[test]
fn evolve_keeps_population_sorted_and_well_formed() {
    let ds = four_node_dataset();
    let mut rng = StdRng::seed_from_u64(37);
    let mut g = Generation::new(1, 10, 20, &ds, &mut rng);
    for step in 0..6 {
        // Exercise both policies: recombination first, mutation-only later.
        g = g.evolve(&mut rng, &ds, 2, 3, 4).unwrap();
        assert_eq!(g.id, 2 + step);
        assert_eq!(g.population.len(), 20);
        for ind in &g.population {
            assert!(is_permutation_of_all(&ind.nodes, ds.size));
            assert_eq!(ind.length, manual_length(&ds, &ind.nodes));
        }
        for w in g.population.windows(2) {
            assert!(w[0].length <= w[1].length);
        }
    }
}

#[test]
fn identical_seeds_give_identical_searches() {
    let ds = four_node_dataset();
    let run = |seed: u64| {
        let mut rng = StdRng::seed_from_u64(seed);
        let mut g = Generation::new(1, 8, 15, &ds, &mut rng);
        let mut trace: Vec<(Vec<usize>, u64)> = Vec::new();
        for _ in 0..5 {
            g = g.evolve(&mut rng, &ds, 2, 4, 10).unwrap();
            for ind in &g.population {
                trace.push((ind.nodes.clone(), ind.length));
            }
        }
        trace
    };
    assert_eq!(run(99), run(99));
}

#[test]
fn distinct_seeds_usually_diverge() {
    let ds = four_node_dataset();
    let run = |seed: u64| {
        let mut rng = StdRng::seed_from_u64(seed);
        let g = Generation::new(1, 8, 15, &ds, &mut rng);
        g.population.iter().map(|i| i.nodes.clone()).collect::<Vec<_>>()
    };
    assert_ne!(run(1), run(2));
}

#[test]
fn flat_population_cannot_select() {
    // With two nodes every tour has the same length, so every selection
    // weight is zero and evolution reports the defect.
    let labels = vec!["X".to_string(), "Y".to_string()];
    let m = Matrix::Distances(vec![vec![0, 7], vec![7, 0]]);
    let ds = Dataset::new(labels, m).unwrap();
    let mut rng = StdRng::seed_from_u64(41);
    let g = Generation::new(1, 5, 6, &ds, &mut rng);
    let r = g.evolve(&mut rng, &ds, 1, 1, 10);
    assert!(matches!(r, Err(InvariantViolation::DegenerateSelection)));
    let s = g.select_parent(&mut rng);
    assert!(matches!(s, Err(InvariantViolation::DegenerateSelection)));
}

#[test]
fn cloning_copies_nodes_and_length() {
    let a = Individual { size: 4, nodes: vec![2, 0, 3, 1], length: 12 };
    let b = a.clone();
    assert_eq!(b.size, 4);
    assert_eq!(b.nodes, vec![2, 0, 3, 1]);
    assert_eq!(b.length, 12);
}

#[test]
fn tours_compare_by_length_alone() {
    let ds = four_node_dataset();
    let a = Individual { size: 4, nodes: vec![0, 1, 2, 3], length: 4 };
    let b = Individual { size: 4, nodes: vec![3, 2, 1, 0], length: 4 };
    let c = Individual { size: 4, nodes: vec![0, 2, 1, 3], length: 11 };
    assert!(a == b);
    assert!(a < c);
    assert!(c > b);
    let _ = &ds;
}
