use rand::rngs::StdRng;
use rand::SeedableRng;
use tsp_ga::dataset::{Dataset, Matrix};
use tsp_ga::generation::Generation;
use tsp_ga::utils::{
    get_max_display_width, get_max_display_width_thousands_2d, ThousandsDisplayPolicy,
};

#[test]
fn widest_label_sets_the_width() {
    let labels = vec!["AB".to_string(), "XYZ".to_string(), "Q".to_string()];
    assert_eq!(get_max_display_width(&labels), 3);
}

#[test]
fn thousands_grouping_uses_apostrophes() {
    assert_eq!(1234567u64.thousands(), "1'234'567");
    assert_eq!(1000usize.thousands(), "1'000");
    assert_eq!(7u64.thousands(), "7");
}

#[test]
fn matrix_width_counts_the_grouped_maximum() {
    // The widest entry is 1000, shown as 1'000: five characters, not four.
    let m = Matrix::Distances(vec![vec![0, 1000], vec![1000, 0]]);
    assert_eq!(get_max_display_width_thousands_2d(&m), 5);
}

#[test]
fn dataset_widths_follow_its_contents() {
    let labels = vec!["Berlin".to_string(), "Oslo".to_string()];
    let m = Matrix::Distances(vec![vec![0, 1234], vec![1234, 0]]);
    let ds = Dataset::new(labels, m).unwrap();
    assert_eq!(ds.longest_label_display_width, 6);
    assert_eq!(ds.longest_distance_display_width, 5); // 1'234
    assert_eq!(ds.longest_path_length, 2468);
    assert_eq!(ds.longest_path_display_width, 5); // 2'468
}

#[test]
fn generation_count_width_uses_commas() {
    let labels = vec!["A".to_string(), "B".to_string(), "C".to_string()];
    let m = Matrix::Distances(vec![vec![0, 1, 2], vec![1, 0, 3], vec![2, 3, 0]]);
    let ds = Dataset::new(labels, m).unwrap();
    let mut rng = StdRng::seed_from_u64(1);
    let g = Generation::new(1, 1000, 5, &ds, &mut rng);
    assert_eq!(g.number_of_generations, 1000);
    assert_eq!(g.number_of_generations_display_width, 5); // 1,000
}
