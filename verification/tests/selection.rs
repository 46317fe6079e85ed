use rand::rngs::StdRng;
use rand::Rng;
use rand::SeedableRng;
use tsp_ga::dataset::{Dataset, Matrix};
use tsp_ga::generation::Generation;

fn four_node_dataset() -> Dataset {
    let labels = vec!["A".to_string(), "B".to_string(), "C".to_string(), "D".to_string()];
    let m = Matrix::Distances(vec![
        vec![0, 1, 4, 3],
        vec![1, 0, 2, 5],
        vec![4, 2, 0, 1],
        vec![3, 5, 1, 0],
    ]);
    Dataset::new(labels, m).unwrap()
}

#[test]
fn cumulative_weights_never_decrease() {
    let ds = four_node_dataset();
    let mut rng = StdRng::seed_from_u64(5);
    let g = Generation::new(1, 10, 40, &ds, &mut rng);
    for w in g.fitnesses.windows(2) {
        assert!(w[0] <= w[1]);
    }
    assert_eq!(g.fitnesses.len(), g.population.len());
}

#[test]
fn spread_lengths_make_the_total_positive() {
    let ds = four_node_dataset();
    let mut rng = StdRng::seed_from_u64(7);
    let g = Generation::new(1, 10, 40, &ds, &mut rng);
    assert!(g.population[0].length < g.population[39].length);
    assert!(*g.fitnesses.last().unwrap() > 0);
}

#[test]
fn selection_scan_finds_the_first_reaching_weight() {
    let ds = four_node_dataset();
    let mut rng = StdRng::seed_from_u64(13);
    let g = Generation::new(1, 10, 10, &ds, &mut rng);
    // A zero draw lands on the first tour; a draw just below a cumulative
    // weight lands no later than that entry.
    assert_eq!(g.select_parent_index(0), 0);
    let total = *g.fitnesses.last().unwrap();
    let idx = g.select_parent_index(total - 1);
    assert!(idx < g.population.len());
    for j in 0..idx {
        assert!(g.fitnesses[j] < total - 1);
    }
    assert!(total - 1 <= g.fitnesses[idx]);
}

#[test]
fn cumulative_weights_follow_the_formula() {
    // Recompute each weight from the observed lengths: squared headroom
    // below the worst length, plus the squared spread divided by the
    // population size; the stored entries must be the running sums.
    let ds = four_node_dataset();
    let mut rng = StdRng::seed_from_u64(23);
    let g = Generation::new(1, 10, 25, &ds, &mut rng);
    let mx = g.population[24].length as u128;
    let mn = g.population[0].length as u128;
    let delta = (mx - mn) * (mx - mn) / 25;
    let mut cum: u128 = 0;
    for i in 0..25 {
        let headroom = mx - g.population[i].length as u128;
        cum += headroom * headroom + delta;
        assert_eq!(g.fitnesses[i], cum);
    }
}

#[test]
fn better_tours_are_selected_more_often() {
    let ds = four_node_dataset();
    let mut rng = StdRng::seed_from_u64(19);
    let g = Generation::new(1, 10, 30, &ds, &mut rng);
    assert!(g.population[0].length < g.population[29].length);
    let total = *g.fitnesses.last().unwrap();
    let mut best_hits = 0u32;
    let mut worst_hits = 0u32;
    for _ in 0..20_000 {
        let x: u128 = rng.gen_range(0..total);
        let idx = g.select_parent_index(x);
        if idx == 0 {
            best_hits += 1;
        }
        if idx == 29 {
            worst_hits += 1;
        }
    }
    assert!(best_hits > worst_hits);
    assert!(best_hits > 0);
}

#[test]
fn select_parent_returns_a_population_member() {
    let ds = four_node_dataset();
    let mut rng = StdRng::seed_from_u64(43);
    let g = Generation::new(1, 10, 12, &ds, &mut rng);
    for _ in 0..50 {
        let p = g.select_parent(&mut rng).unwrap();
        assert!(g.population.iter().any(|q| q.nodes == p.nodes && q.length == p.length));
    }
}
