use vstd::prelude::*;
use crate::perm::{
    identity_nodes, identity_order, is_permutation, lemma_permutation_transfers, swap_nodes,
};
use crate::utils::{
    get_max_display_width, grouped_display_len, grouped_width, is_max_display_width,
};
use crate::ValidationError;

verus! {

/// Largest node count the engine's fixed-width arithmetic is sized for.
pub const MAX_NODES: usize = 0x100000;

/// Coordinates must lie in `[-COORD_LIMIT, COORD_LIMIT]`.
pub const COORD_LIMIT: i64 = 1_000_000_000;

/// `r` is the floor of the square root of `n`.
pub open spec fn is_sqrt_floor(n: int, r: int) -> bool {
    0 <= r && r * r <= n && n < (r + 1) * (r + 1)
}

/// The floor of the square root of `n`.
pub open spec fn sqrt_floor(n: int) -> int {
    choose|r: int| is_sqrt_floor(n, r)
}

pub proof fn lemma_sqrt_floor_unique(n: int, r1: int, r2: int)
    requires
        is_sqrt_floor(n, r1),
        is_sqrt_floor(n, r2),
    ensures
        r1 == r2,
{
    if r1 < r2 {
        assert((r1 + 1) * (r1 + 1) <= r2 * r2) by (nonlinear_arith)
            requires
                0 <= r1 < r2,
        ;
    }
    if r2 < r1 {
        assert((r2 + 1) * (r2 + 1) <= r1 * r1) by (nonlinear_arith)
            requires
                0 <= r2 < r1,
        ;
    }
}

pub proof fn lemma_sqrt_floor_exists(n: int)
    requires
        0 <= n,
    ensures
        is_sqrt_floor(n, sqrt_floor(n)),
    decreases n,
{
    if n == 0 {
        assert(is_sqrt_floor(0, 0));
    } else {
        lemma_sqrt_floor_exists(n - 1);
        let r = sqrt_floor(n - 1);
        if (r + 1) * (r + 1) <= n {
            assert((r + 1) * (r + 1) < (r + 2) * (r + 2)) by (nonlinear_arith)
                requires
                    0 <= r,
            ;
            assert(is_sqrt_floor(n, r + 1));
        } else {
            assert(is_sqrt_floor(n, r));
        }
    }
}

/// Binary search for the floor of the square root of `n`.
pub fn isqrt(n: u64) -> (r: u64)
    ensures
        r as int == sqrt_floor(n as int),
        is_sqrt_floor(n as int, r as int),
{
    let mut lo: u64 = 0;
    let mut hi: u64 = 0x100000000;
    while lo + 1 < hi
        invariant
            lo < hi <= 0x100000000,
            (lo as int) * (lo as int) <= n as int,
            (hi as int) * (hi as int) > n as int,
        decreases hi - lo,
    {
        let mid = lo + (hi - lo) / 2;
        proof {
            assert((mid as int) * (mid as int) <= 0x100000000 * 0x100000000) by (nonlinear_arith)
                requires
                    0 <= mid <= 0x100000000,
            ;
        }
        let sq: u128 = (mid as u128) * (mid as u128);
        if sq <= n as u128 {
            lo = mid;
        } else {
            hi = mid;
        }
    }
    proof {
        assert(is_sqrt_floor(n as int, lo as int));
        lemma_sqrt_floor_exists(n as int);
        lemma_sqrt_floor_unique(n as int, lo as int, sqrt_floor(n as int));
    }
    lo
}

/// The two shapes a distance model can take: an explicit matrix of pairwise
/// distances, or a set of planar points whose distances are computed on
/// demand (rounded down to an integer).
pub enum Matrix {
    Distances(Vec<Vec<u32>>),
    Locations(Vec<(i64, i64)>),
}

impl Matrix {
    /// The number of nodes this matrix covers.
    pub open spec fn spec_len(&self) -> int {
        match self {
            Matrix::Distances(m) => m@.len() as int,
            Matrix::Locations(v) => v@.len() as int,
        }
    }

    /// Every row is as wide as the matrix is tall (always true of a
    /// coordinate set).
    pub open spec fn rows_square(&self) -> bool {
        match self {
            Matrix::Distances(m) => forall|i: int|
                0 <= i < m@.len() ==> (#[trigger] m@[i])@.len() == m@.len(),
            Matrix::Locations(_) => true,
        }
    }

    /// Every coordinate is within the range the arithmetic is sized for.
    pub open spec fn coords_in_range(&self) -> bool {
        match self {
            Matrix::Distances(_) => true,
            Matrix::Locations(v) => forall|i: int|
                0 <= i < v@.len() ==> -COORD_LIMIT <= (#[trigger] v@[i]).0 <= COORD_LIMIT
                    && -COORD_LIMIT <= v@[i].1 <= COORD_LIMIT,
        }
    }

    pub open spec fn wf_data(&self) -> bool {
        self.rows_square() && self.coords_in_range()
    }

    /// The distance from node `i` to node `j`: the stored entry, or the
    /// rounded-down Euclidean distance between the two points.
    pub open spec fn spec_dist(&self, i: int, j: int) -> int {
        match self {
            Matrix::Distances(m) => m@[i]@[j] as int,
            Matrix::Locations(v) => {
                let dx = v@[j].0 - v@[i].0;
                let dy = v@[j].1 - v@[i].1;
                sqrt_floor(dx * dx + dy * dy)
            },
        }
    }

    /// Distances are non-negative and below 2^32.
    pub proof fn lemma_dist_bounds(&self, i: int, j: int)
        requires
            self.wf_data(),
            0 <= i < self.spec_len(),
            0 <= j < self.spec_len(),
        ensures
            0 <= self.spec_dist(i, j) < 0x100000000,
    {
        match self {
            Matrix::Distances(_) => {},
            Matrix::Locations(v) => {
                let dx = v@[j].0 - v@[i].0;
                let dy = v@[j].1 - v@[i].1;
                let sq = dx * dx + dy * dy;
                assert(sq <= 8000000000000000000) by (nonlinear_arith)
                    requires
                        -2000000000 <= dx <= 2000000000,
                        -2000000000 <= dy <= 2000000000,
                        sq == dx * dx + dy * dy,
                ;
                assert(0 <= sq) by (nonlinear_arith)
                    requires
                        sq == dx * dx + dy * dy,
                ;
                lemma_sqrt_floor_exists(sq);
                let r = sqrt_floor(sq);
                if r >= 0x100000000 {
                    assert(r * r >= 0x100000000 * 0x100000000) by (nonlinear_arith)
                        requires
                            r >= 0x100000000,
                    ;
                }
            },
        }
    }

    pub fn len(&self) -> (n: usize)
        ensures
            n == self.spec_len(),
    {
        match self {
            Matrix::Distances(m) => m.len(),
            Matrix::Locations(v) => v.len(),
        }
    }

    /// Whether an explicit matrix really is square; a coordinate set always
    /// is.
    pub fn is_square(&self) -> (b: bool)
        ensures
            b == self.rows_square(),
    {
        match self {
            Matrix::Distances(m) => {
                let n = m.len();
                let mut ok = true;
                let mut i: usize = 0;
                while i < n
                    invariant
                        i <= n,
                        n == m@.len(),
                        ok == forall|k: int| 0 <= k < i ==> (#[trigger] m@[k])@.len() == n,
                    decreases n - i,
                {
                    if m[i].len() != n {
                        ok = false;
                        proof {
                            assert(m@[i as int]@.len() != n);
                        }
                    }
                    i = i + 1;
                }
                ok
            },
            Matrix::Locations(_) => true,
        }
    }

    pub fn get(&self, node1: usize, node2: usize) -> (d: u64)
        requires
            self.wf_data(),
            node1 < self.spec_len(),
            node2 < self.spec_len(),
        ensures
            d == self.spec_dist(node1 as int, node2 as int),
            d < 0x100000000,
    {
        proof {
            self.lemma_dist_bounds(node1 as int, node2 as int);
        }
        match self {
            Matrix::Distances(m) => m[node1][node2] as u64,
            Matrix::Locations(v) => {
                let p1 = v[node1];
                let p2 = v[node2];
                let dx = p2.0 - p1.0;
                let dy = p2.1 - p1.1;
                proof {
                    assert(dx * dx + dy * dy <= 8000000000000000000 && 0 <= dx * dx && 0 <= dy
                        * dy) by (nonlinear_arith)
                        requires
                            -2000000000 <= dx <= 2000000000,
                            -2000000000 <= dy <= 2000000000,
                    ;
                }
                let sq = dx * dx + dy * dy;
                isqrt(sq as u64)
            },
        }
    }
}

/// `d` is the largest pairwise distance of the matrix.
pub open spec fn is_max_dist(m: &Matrix, d: int) -> bool {
    &&& exists|i: int, j: int|
        0 <= i < m.spec_len() && 0 <= j < m.spec_len() && #[trigger] m.spec_dist(i, j) == d
    &&& forall|i: int, j: int|
        0 <= i < m.spec_len() && 0 <= j < m.spec_len() ==> #[trigger] m.spec_dist(i, j) <= d
}

/// The largest pairwise distance of the matrix.
pub open spec fn max_dist(m: &Matrix) -> int {
    choose|d: int| is_max_dist(m, d)
}

pub proof fn lemma_max_dist_unique(m: &Matrix, d1: int, d2: int)
    requires
        is_max_dist(m, d1),
        is_max_dist(m, d2),
    ensures
        d1 == d2,
{
}

impl Matrix {
    /// The largest entry of the matrix, scanning rows first (the same scan
    /// order as the pairwise maximum is defined over).
    pub fn max(&self) -> (d: u64)
        requires
            self.wf_data(),
            1 <= self.spec_len(),
        ensures
            is_max_dist(self, d as int),
            d as int == max_dist(self),
            d < 0x100000000,
    {
        let n = self.len();
        let mut best: u64 = self.get(0, 0);
        let mut i: usize = 0;
        while i < n
            invariant
                i <= n,
                n == self.spec_len(),
                self.wf_data(),
                best < 0x100000000,
                exists|a: int, b: int|
                    0 <= a < n && 0 <= b < n && #[trigger] self.spec_dist(a, b) == best,
                forall|a: int, b: int|
                    0 <= a < i && 0 <= b < n ==> #[trigger] self.spec_dist(a, b) <= best,
            decreases n - i,
        {
            let mut j: usize = 0;
            while j < n
                invariant
                    i < n,
                    j <= n,
                    n == self.spec_len(),
                    self.wf_data(),
                    best < 0x100000000,
                    exists|a: int, b: int|
                        0 <= a < n && 0 <= b < n && #[trigger] self.spec_dist(a, b) == best,
                    forall|a: int, b: int|
                        0 <= a < i && 0 <= b < n ==> #[trigger] self.spec_dist(a, b) <= best,
                    forall|b: int| 0 <= b < j ==> #[trigger] self.spec_dist(i as int, b) <= best,
                decreases n - j,
            {
                let dcur = self.get(i, j);
                if best < dcur {
                    best = dcur;
                }
                j = j + 1;
            }
            i = i + 1;
        }
        proof {
            assert(is_max_dist(self, best as int));
            lemma_max_dist_unique(self, best as int, max_dist(self));
        }
        best
    }
}

/// Node `a` ranks no later than node `b` when both are viewed from `node`:
/// nearer nodes come first, ties are broken by ascending index.
pub open spec fn rank_le(m: &Matrix, node: int, a: usize, b: usize) -> bool {
    ||| m.spec_dist(node, a as int) < m.spec_dist(node, b as int)
    ||| (m.spec_dist(node, a as int) == m.spec_dist(node, b as int) && a <= b)
}

/// `s` is ordered by ascending distance from `node`, ties by index.
pub open spec fn rank_sorted(m: &Matrix, node: int, s: Seq<usize>) -> bool {
    forall|p: int, q: int| 0 <= p < q < s.len() ==> #[trigger] rank_le(m, node, s[p], s[q])
}

/// `s` is the neighbor ranking of `node`: every node exactly once, nearest
/// first.
pub open spec fn neighbor_rank_ok(m: &Matrix, node: int, s: Seq<usize>) -> bool {
    &&& is_permutation(s, m.spec_len())
    &&& rank_sorted(m, node, s)
}

/// Insertion-sorts `v` by ascending distance from `node`, ties by index.
fn sort_by_rank(m: &Matrix, node: usize, v: &mut Vec<usize>)
    requires
        m.wf_data(),
        node < m.spec_len(),
        forall|k: int| 0 <= k < old(v)@.len() ==> (#[trigger] old(v)@[k]) < m.spec_len(),
    ensures
        final(v)@.to_multiset() == old(v)@.to_multiset(),
        final(v)@.len() == old(v)@.len(),
        rank_sorted(m, node as int, final(v)@),
{
    let n = v.len();
    if n <= 1 {
        return;
    }
    let mut i: usize = 1;
    while i < n
        invariant
            m.wf_data(),
            (node as int) < m.spec_len(),
            n == v@.len(),
            1 <= i <= n,
            v@.to_multiset() == old(v)@.to_multiset(),
            forall|k: int| 0 <= k < v@.len() ==> (#[trigger] v@[k]) < m.spec_len(),
            forall|p: int, q: int|
                0 <= p < q < i ==> #[trigger] rank_le(m, node as int, v@[p], v@[q]),
        decreases n - i,
    {
        let mut j: usize = i;
        while j > 0
            invariant
                m.wf_data(),
                (node as int) < m.spec_len(),
                n == v@.len(),
                j <= i < n,
                v@.to_multiset() == old(v)@.to_multiset(),
                forall|k: int| 0 <= k < v@.len() ==> (#[trigger] v@[k]) < m.spec_len(),
                forall|p: int, q: int|
                    0 <= p < q <= i && q != j ==> #[trigger] rank_le(m, node as int, v@[p], v@[q]),
            ensures
                m.wf_data(),
                n == v@.len(),
                j <= i < n,
                v@.to_multiset() == old(v)@.to_multiset(),
                forall|k: int| 0 <= k < v@.len() ==> (#[trigger] v@[k]) < m.spec_len(),
                forall|p: int, q: int|
                    0 <= p < q <= i && q != j ==> #[trigger] rank_le(m, node as int, v@[p], v@[q]),
                j == 0 || rank_le(m, node as int, v@[j - 1], v@[j as int]),
            decreases j,
        {
            let dprev = m.get(node, v[j - 1]);
            let dcur = m.get(node, v[j]);
            if dcur < dprev || (dcur == dprev && v[j] < v[j - 1]) {
                let ghost w = v@;
                swap_nodes(v, j - 1, j);
                proof {
                    assert forall|p: int, q: int|
                        0 <= p < q <= i && q != j - 1 implies #[trigger] rank_le(
                        m,
                        node as int,
                        v@[p],
                        v@[q],
                    ) by {
                        if q == j {
                            if p == j - 1 {
                                assert(v@[p] == w[j as int] && v@[q] == w[j - 1]);
                            } else {
                                assert(rank_le(m, node as int, w[p], w[j - 1]));
                            }
                        } else if p == j - 1 || p == j {
                            assert(rank_le(m, node as int, w[j - 1], w[q]));
                            assert(rank_le(m, node as int, w[j as int], w[q]));
                        } else {
                            assert(rank_le(m, node as int, w[p], w[q]));
                        }
                    };
                }
                j = j - 1;
            } else {
                break;
            }
        }
        proof {
            assert forall|p: int, q: int| 0 <= p < q <= i implies #[trigger] rank_le(
                m,
                node as int,
                v@[p],
                v@[q],
            ) by {
                if q == j {
                    if p < j - 1 {
                        assert(rank_le(m, node as int, v@[p], v@[j - 1]));
                    }
                    assert(rank_le(m, node as int, v@[j - 1], v@[q]));
                }
            };
        }
        i = i + 1;
    }
}

/// The precomputed neighbor rankings: one ordering of all nodes per node.
fn find_neighbors(distance_matrix: &Matrix) -> (nb: Vec<Vec<usize>>)
    requires
        distance_matrix.wf_data(),
    ensures
        nb@.len() == distance_matrix.spec_len(),
        forall|i: int|
            0 <= i < nb@.len() ==> neighbor_rank_ok(
                distance_matrix,
                i,
                (#[trigger] nb@[i])@,
            ),
{
    let n = distance_matrix.len();
    let mut node_neighbors: Vec<Vec<usize>> = Vec::new();
    let mut node: usize = 0;
    while node < n
        invariant
            node <= n,
            n == distance_matrix.spec_len(),
            distance_matrix.wf_data(),
            node_neighbors@.len() == node,
            forall|i: int|
                0 <= i < node ==> neighbor_rank_ok(
                    distance_matrix,
                    i,
                    (#[trigger] node_neighbors@[i])@,
                ),
        decreases n - node,
    {
        let mut neighbors = identity_nodes(n);
        sort_by_rank(distance_matrix, node, &mut neighbors);
        proof {
            lemma_permutation_transfers(identity_order(n as int), neighbors@, n as int);
        }
        node_neighbors.push(neighbors);
        node = node + 1;
    }
    node_neighbors
}

/// The labels, read as character sequences, are pairwise distinct.
pub open spec fn labels_distinct(labels: Seq<String>) -> bool {
    forall|p: int, q: int|
        0 <= p < q < labels.len() ==> (#[trigger] labels[p])@ != (#[trigger] labels[q])@
}

/// Scans all pairs of labels for a repetition.
fn labels_unique(labels: &Vec<String>) -> (b: bool)
    ensures
        b == labels_distinct(labels@),
{
    let n = labels.len();
    let mut ok = true;
    let mut i: usize = 0;
    while i < n
        invariant
            i <= n,
            n == labels@.len(),
            ok == forall|p: int, q: int|
                0 <= p < q < labels@.len() && p < i ==> (#[trigger] labels@[p])@ != (
                #[trigger] labels@[q])@,
        decreases n - i,
    {
        let mut j: usize = i + 1;
        while j < n
            invariant
                i < j <= n,
                i < n,
                n == labels@.len(),
                ok == ((forall|p: int, q: int|
                    0 <= p < q < labels@.len() && p < i ==> (#[trigger] labels@[p])@ != (
                    #[trigger] labels@[q])@) && (forall|q: int|
                    i < q < j ==> (#[trigger] labels@[q])@ != labels@[i as int]@)),
            decreases n - j,
        {
            if labels[i] == labels[j] {
                ok = false;
                proof {
                    assert(labels@[i as int]@ == labels@[j as int]@);
                }
            }
            j = j + 1;
        }
        i = i + 1;
    }
    ok
}

/// Scans a coordinate set for a coordinate out of range.
fn coords_ok(m: &Matrix) -> (b: bool)
    ensures
        b == m.coords_in_range(),
{
    match m {
        Matrix::Distances(_) => true,
        Matrix::Locations(v) => {
            let n = v.len();
            let mut ok = true;
            let mut i: usize = 0;
            while i < n
                invariant
                    i <= n,
                    n == v@.len(),
                    ok == forall|k: int|
                        0 <= k < i ==> -COORD_LIMIT <= (#[trigger] v@[k]).0 <= COORD_LIMIT
                            && -COORD_LIMIT <= v@[k].1 <= COORD_LIMIT,
                decreases n - i,
            {
                let p = v[i];
                if p.0 < -COORD_LIMIT || p.0 > COORD_LIMIT || p.1 < -COORD_LIMIT || p.1
                    > COORD_LIMIT {
                    ok = false;
                }
                i = i + 1;
            }
            ok
        },
    }
}

/// Labels and distances that together form an acceptable dataset.
pub open spec fn spec_valid_dataset(labels: Seq<String>, m: &Matrix) -> bool {
    &&& 2 <= labels.len() <= MAX_NODES
    &&& labels_distinct(labels)
    &&& labels.len() == m.spec_len()
    &&& m.rows_square()
    &&& m.coords_in_range()
}

/// The node set and its distances, with everything the search precomputes:
/// neighbor rankings and the display widths of the reporting layer.
pub struct Dataset {
    pub size: usize,
    pub labels: Vec<String>,
    pub distance_matrix: Matrix,
    pub longest_path_length: u64,
    pub nodes_neighbors: Vec<Vec<usize>>,
    pub longest_label_display_width: usize,
    pub longest_distance_display_width: usize,
    pub longest_path_display_width: usize,
}

impl Dataset {
    /// Everything construction establishes and every later phase relies on.
    pub open spec fn wf(&self) -> bool {
        &&& 2 <= self.size <= MAX_NODES
        &&& self.labels@.len() == self.size
        &&& labels_distinct(self.labels@)
        &&& self.distance_matrix.spec_len() == self.size
        &&& self.distance_matrix.wf_data()
        &&& self.nodes_neighbors@.len() == self.size
        &&& forall|i: int|
            0 <= i < self.size ==> neighbor_rank_ok(
                &self.distance_matrix,
                i,
                (#[trigger] self.nodes_neighbors@[i])@,
            )
        &&& is_max_dist(&self.distance_matrix, max_dist(&self.distance_matrix))
        &&& self.longest_path_length == max_dist(&self.distance_matrix) * self.size
        &&& is_max_display_width(self.labels@, self.longest_label_display_width)
        &&& self.longest_distance_display_width == grouped_width(
            max_dist(&self.distance_matrix) as u64,
        )
        &&& self.longest_path_display_width == grouped_width(self.longest_path_length)
    }

    /// Checks a dataset before anything is built from it. Each input defect
    /// maps to exactly one error, checked in a fixed order.
    fn verify(labels: &Vec<String>, distance_matrix: &Matrix) -> (r: Result<
        (),
        ValidationError,
    >)
        ensures
            r is Ok <==> spec_valid_dataset(labels@, distance_matrix),
            r == Result::<(), ValidationError>::Err(ValidationError::TooFewNodes) <==> labels@.len()
                < 2,
            r == Result::<(), ValidationError>::Err(ValidationError::TooManyNodes) <==> (2
                <= labels@.len() && labels@.len() > MAX_NODES),
            r == Result::<(), ValidationError>::Err(ValidationError::DuplicateLabels) <==> (2
                <= labels@.len() <= MAX_NODES && !labels_distinct(labels@)),
            r == Result::<(), ValidationError>::Err(ValidationError::NonSquareMatrix) <==> (2
                <= labels@.len() <= MAX_NODES && labels_distinct(labels@) && (labels@.len()
                != distance_matrix.spec_len() || !distance_matrix.rows_square())),
            r == Result::<(), ValidationError>::Err(ValidationError::CoordinateOutOfRange) <==> (2
                <= labels@.len() <= MAX_NODES && labels_distinct(labels@) && labels@.len()
                == distance_matrix.spec_len() && distance_matrix.rows_square()
                && !distance_matrix.coords_in_range()),
    {
        let labels_count = labels.len();
        if labels_count < 2 {
            return Err(ValidationError::TooFewNodes);
        }
        if labels_count > MAX_NODES {
            return Err(ValidationError::TooManyNodes);
        }
        if !labels_unique(labels) {
            return Err(ValidationError::DuplicateLabels);
        }
        if labels_count != distance_matrix.len() {
            return Err(ValidationError::NonSquareMatrix);
        }
        if !distance_matrix.is_square() {
            return Err(ValidationError::NonSquareMatrix);
        }
        if !coords_ok(distance_matrix) {
            return Err(ValidationError::CoordinateOutOfRange);
        }
        Ok(())
    }

    /// Validates the input and precomputes the neighbor rankings, the
    /// longest conceivable path length and the display widths.
    pub fn new(labels: Vec<String>, distance_matrix: Matrix) -> (r: Result<
        Dataset,
        ValidationError,
    >)
        ensures
            r is Ok <==> spec_valid_dataset(labels@, &distance_matrix),
            r matches Ok(ds) ==> ds.wf() && ds.labels@ == labels@ && ds.distance_matrix
                == distance_matrix && ds.size == labels@.len(),
            r matches Err(e) ==> Self::verify_error(labels@, &distance_matrix, e),
    {
        match Self::verify(&labels, &distance_matrix) {
            Err(e) => Err(e),
            Ok(()) => {
                let size = labels.len();
                let longest_label_display_width = get_max_display_width(&labels);
                let mx = distance_matrix.max();
                let longest_distance_display_width = grouped_display_len(mx);
                let nodes_neighbors = find_neighbors(&distance_matrix);
                proof {
                    assert((mx as int) * (size as int) < 0x10000000000000) by (nonlinear_arith)
                        requires
                            0 <= mx < 0x100000000,
                            0 <= size <= 0x100000,
                    ;
                }
                let longest_path_length: u64 = mx * (size as u64);
                let longest_path_display_width = grouped_display_len(longest_path_length);
                Ok(
                    Dataset {
                        size,
                        labels,
                        distance_matrix,
                        longest_path_length,
                        nodes_neighbors,
                        longest_label_display_width,
                        longest_distance_display_width,
                        longest_path_display_width,
                    },
                )
            },
        }
    }

    /// Which error `new` reports for which defect, in checking order.
    pub open spec fn verify_error(labels: Seq<String>, m: &Matrix, e: ValidationError) -> bool {
        match e {
            ValidationError::TooFewNodes => labels.len() < 2,
            ValidationError::TooManyNodes => 2 <= labels.len() && labels.len() > MAX_NODES,
            ValidationError::DuplicateLabels => 2 <= labels.len() <= MAX_NODES
                && !labels_distinct(labels),
            ValidationError::NonSquareMatrix => 2 <= labels.len() <= MAX_NODES
                && labels_distinct(labels) && (labels.len() != m.spec_len()
                || !m.rows_square()),
            ValidationError::CoordinateOutOfRange => 2 <= labels.len() <= MAX_NODES
                && labels_distinct(labels) && labels.len() == m.spec_len() && m.rows_square()
                && !m.coords_in_range(),
        }
    }
}

} // verus!
