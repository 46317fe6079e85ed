use tsp_ga::dataset::{Dataset, Matrix};
use tsp_ga::ValidationError;

fn four_node_matrix() -> Matrix {
    Matrix::Distances(vec![
        vec![0, 1, 4, 3],
        vec![1, 0, 2, 5],
        vec![4, 2, 0, 1],
        vec![3, 5, 1, 0],
    ])
}

fn four_node_labels() -> Vec<String> {
    vec!["A".to_string(), "B".to_string(), "C".to_string(), "D".to_string()]
}

#[test]
fn single_label_is_rejected() {
    let r = Dataset::new(vec!["A".to_string()], Matrix::Distances(vec![vec![0]]));
    assert!(matches!(r, Err(ValidationError::TooFewNodes)));
}

#[test]
fn no_labels_is_rejected() {
    let r = Dataset::new(Vec::new(), Matrix::Distances(Vec::new()));
    assert!(matches!(r, Err(ValidationError::TooFewNodes)));
}

#[test]
fn duplicate_labels_are_rejected() {
    let labels = vec!["A".to_string(), "B".to_string(), "A".to_string()];
    let m = Matrix::Distances(vec![vec![0, 1, 2], vec![1, 0, 3], vec![2, 3, 0]]);
    let r = Dataset::new(labels, m);
    assert!(matches!(r, Err(ValidationError::DuplicateLabels)));
}

#[test]
fn row_count_mismatch_is_rejected() {
    let labels = vec!["A".to_string(), "B".to_string(), "C".to_string()];
    let m = Matrix::Distances(vec![vec![0, 1, 2], vec![1, 0, 3]]);
    let r = Dataset::new(labels, m);
    assert!(matches!(r, Err(ValidationError::NonSquareMatrix)));
}

#[test]
fn ragged_row_is_rejected() {
    let labels = vec!["A".to_string(), "B".to_string(), "C".to_string()];
    let m = Matrix::Distances(vec![vec![0, 1, 2], vec![1, 0], vec![2, 3, 0]]);
    let r = Dataset::new(labels, m);
    assert!(matches!(r, Err(ValidationError::NonSquareMatrix)));
}

#[test]
fn oversized_node_count_is_rejected() {
    let n = 0x100000 + 1;
    let mut labels = Vec::with_capacity(n);
    for i in 0..n {
        labels.push(i.to_string());
    }
    let m = Matrix::Locations(vec![(0, 0); n]);
    let r = Dataset::new(labels, m);
    assert!(matches!(r, Err(ValidationError::TooManyNodes)));
}

#[test]
fn oversized_coordinate_is_rejected() {
    let labels = vec!["P".to_string(), "Q".to_string()];
    let m = Matrix::Locations(vec![(0, 0), (2_000_000_000, 0)]);
    let r = Dataset::new(labels, m);
    assert!(matches!(r, Err(ValidationError::CoordinateOutOfRange)));
}

#[test]
fn valid_dataset_constructs() {
    let ds = Dataset::new(four_node_labels(), four_node_matrix()).unwrap();
    assert_eq!(ds.size, 4);
    assert_eq!(ds.labels.len(), 4);
}

#[test]
fn neighbor_rank_of_first_node() {
    // From A the nodes sort as A (0), B (1), D (3), C (4).
    let ds = Dataset::new(four_node_labels(), four_node_matrix()).unwrap();
    assert_eq!(ds.nodes_neighbors[0], vec![0, 1, 3, 2]);
}

#[test]
fn neighbor_rank_breaks_ties_by_index() {
    // From A both B and C sit at distance 2: B (lower index) must come first.
    let labels = vec!["A".to_string(), "B".to_string(), "C".to_string()];
    let m = Matrix::Distances(vec![vec![0, 2, 2], vec![2, 0, 1], vec![2, 1, 0]]);
    let ds = Dataset::new(labels, m).unwrap();
    assert_eq!(ds.nodes_neighbors[0], vec![0, 1, 2]);
}

#[test]
fn matrix_get_reads_entries() {
    let m = four_node_matrix();
    assert_eq!(m.get(0, 2), 4);
    assert_eq!(m.get(3, 1), 5);
    assert_eq!(m.get(2, 2), 0);
}

#[test]
fn matrix_len_and_square() {
    let m = four_node_matrix();
    assert_eq!(m.len(), 4);
    assert!(m.is_square());
    let ragged = Matrix::Distances(vec![vec![0, 1], vec![1]]);
    assert!(!ragged.is_square());
    let locations = Matrix::Locations(vec![(0, 0), (1, 1)]);
    assert!(locations.is_square());
    assert_eq!(locations.len(), 2);
}

#[test]
fn matrix_max_finds_largest_entry() {
    assert_eq!(four_node_matrix().max(), 5);
}

#[test]
fn euclidean_distances_round_down() {
    let m = Matrix::Locations(vec![(0, 0), (3, 4), (0, 8), (1, 1)]);
    assert_eq!(m.get(0, 1), 5); // 3-4-5 triangle
    assert_eq!(m.get(1, 2), 5);
    assert_eq!(m.get(0, 2), 8);
    assert_eq!(m.get(0, 3), 1); // sqrt(2) rounds down to 1
    assert_eq!(m.get(3, 3), 0);
}

#[test]
fn longest_path_length_is_max_times_size() {
    let ds = Dataset::new(four_node_labels(), four_node_matrix()).unwrap();
    assert_eq!(ds.longest_path_length, 20);
}
