use vstd::prelude::*;
use crate::dataset::{Dataset, Matrix, MAX_NODES};
use crate::perm::{
    identity_nodes, identity_order, is_permutation, lemma_partial_fill_has_free,
    lemma_permutation_contains, lemma_permutation_transfers, swap_nodes,
};
use crate::rng::{rand_below, shuffle};

verus! {

/// The length of the open path that visits the first `k + 1` entries of `s`
/// in order: the sum of its first `k` edges.
pub open spec fn path_len_upto(m: &Matrix, s: Seq<usize>, k: int) -> int
    decreases k,
{
    if k <= 0 {
        0
    } else {
        path_len_upto(m, s, k - 1) + m.spec_dist(s[k - 1] as int, s[k] as int)
    }
}

/// The length of the open path that visits all of `s` in order.
pub open spec fn path_len(m: &Matrix, s: Seq<usize>) -> int {
    path_len_upto(m, s, s.len() - 1)
}

/// Each edge is below 2^32, so `k` edges stay below `k * 2^32`.
pub proof fn lemma_path_len_upto_bounds(m: &Matrix, s: Seq<usize>, k: int)
    requires
        m.wf_data(),
        forall|t: int| 0 <= t < s.len() ==> (#[trigger] s[t]) < m.spec_len(),
        k < s.len(),
    ensures
        0 <= path_len_upto(m, s, k) <= if k <= 0 {
            0int
        } else {
            k * 0x100000000
        },
    decreases k,
{
    if k > 0 {
        lemma_path_len_upto_bounds(m, s, k - 1);
        m.lemma_dist_bounds(s[k - 1] as int, s[k] as int);
    }
}

/// A tour over at most `MAX_NODES` nodes stays below 2^52 in length.
pub proof fn lemma_tour_length_bound(dataset: &Dataset, ind: &Individual)
    requires
        dataset.wf(),
        ind.wf(dataset),
    ensures
        ind.length <= 0x10000000000000,
{
    lemma_path_len_upto_bounds(
        &dataset.distance_matrix,
        ind.nodes@,
        ind.nodes@.len() as int - 1,
    );
}

/// A candidate solution: an ordering of all nodes, with its cached length.
#[derive(Clone)]
pub struct Individual {
    pub size: usize,
    pub nodes: Vec<usize>,
    pub length: u64,
}

impl Individual {
    /// The tour visits every node exactly once and its cached length is the
    /// sum of its edges.
    pub open spec fn wf(&self, dataset: &Dataset) -> bool {
        &&& self.size == dataset.size
        &&& is_permutation(self.nodes@, dataset.size as int)
        &&& self.length == path_len(&dataset.distance_matrix, self.nodes@)
    }
}

/// Sums the edges of `nodes` front to back.
fn compute_length(distance_matrix: &Matrix, nodes: &Vec<usize>, size: usize) -> (total: u64)
    requires
        distance_matrix.wf_data(),
        distance_matrix.spec_len() <= MAX_NODES,
        nodes@.len() == size,
        1 <= size <= MAX_NODES,
        forall|t: int| 0 <= t < nodes@.len() ==> (#[trigger] nodes@[t]) < distance_matrix.spec_len(),
    ensures
        total == path_len(distance_matrix, nodes@),
{
    let mut total: u64 = 0;
    let mut k: usize = 0;
    while k < size - 1
        invariant
            distance_matrix.wf_data(),
            distance_matrix.spec_len() <= MAX_NODES,
            nodes@.len() == size,
            1 <= size <= MAX_NODES,
            forall|t: int|
                0 <= t < nodes@.len() ==> (#[trigger] nodes@[t]) < distance_matrix.spec_len(),
            k <= size - 1,
            total == path_len_upto(distance_matrix, nodes@, k as int),
            total <= (k as int) * 0x100000000,
        decreases size - k,
    {
        let d = distance_matrix.get(nodes[k], nodes[k + 1]);
        total = total + d;
        k = k + 1;
    }
    total
}

/// A fresh copy of a node ordering.
fn copy_nodes(v: &Vec<usize>) -> (r: Vec<usize>)
    ensures
        r@ == v@,
{
    let mut r: Vec<usize> = Vec::new();
    let mut i: usize = 0;
    while i < v.len()
        invariant
            i <= v@.len(),
            r@ == v@.subrange(0, i as int),
        decreases v@.len() - i,
    {
        r.push(v[i]);
        proof {
            assert(r@ =~= v@.subrange(0, i + 1));
        }
        i = i + 1;
    }
    proof {
        assert(r@ =~= v@);
    }
    r
}

/// A vector of `n` zeros.
fn zero_nodes(n: usize) -> (v: Vec<usize>)
    ensures
        v@.len() == n,
        forall|k: int| 0 <= k < n ==> (#[trigger] v@[k]) == 0,
{
    let mut v: Vec<usize> = Vec::new();
    let mut i: usize = 0;
    while i < n
        invariant
            i <= n,
            v@.len() == i,
            forall|k: int| 0 <= k < i ==> (#[trigger] v@[k]) == 0,
        decreases n - i,
    {
        v.push(0);
        i = i + 1;
    }
    v
}

/// The position of `node` in `v`; `node` must occur in `v`.
#[verifier::loop_isolation(false)]
fn find_position(v: &Vec<usize>, node: usize) -> (p: usize)
    requires
        exists|i: int| 0 <= i < v@.len() && v@[i] == node,
    ensures
        p < v@.len(),
        v@[p as int] == node,
{
    let mut p: usize = 0;
    while p < v.len()
        invariant
            p <= v@.len(),
            forall|t: int| 0 <= t < p ==> v@[t] != node,
        decreases v@.len() - p,
    {
        if v[p] == node {
            return p;
        }
        p = p + 1;
    }
    proof {
        let i = choose|i: int| 0 <= i < v@.len() && v@[i] == node;
        assert(v@[i] != node);
    }
    0
}

/// Reverses `v[a..=b]` in place, pairwise from the outside in.
#[verifier::loop_isolation(false)]
fn reverse_segment(v: &mut Vec<usize>, a: usize, b: usize)
    requires
        a <= b < old(v)@.len(),
        a + b + 1 <= usize::MAX,
    ensures
        final(v)@.len() == old(v)@.len(),
        forall|k: int| a <= k <= b ==> final(v)@[k] == old(v)@[b - (k - a)],
        forall|k: int| 0 <= k < old(v)@.len() && !(a <= k <= b) ==> final(v)@[k] == old(v)@[k],
        final(v)@.to_multiset() == old(v)@.to_multiset(),
{
    let mut i: usize = a;
    while i < (a + b + 1) / 2
        invariant
            a <= i,
            2 * i <= a + b + 1,
            b < v@.len(),
            v@.len() == old(v)@.len(),
            v@.to_multiset() == old(v)@.to_multiset(),
            forall|k: int| a <= k < i ==> v@[k] == old(v)@[b - (k - a)],
            forall|k: int| a + b - i < k <= b ==> v@[k] == old(v)@[b - (k - a)],
            forall|k: int| i <= k <= a + b - i ==> v@[k] == old(v)@[k],
            forall|k: int| 0 <= k < v@.len() && !(a <= k <= b) ==> v@[k] == old(v)@[k],
        decreases b - i,
    {
        let j = b - i + a;
        swap_nodes(v, i, j);
        i = i + 1;
    }
}

/// Some position of `node` in `s` is followed by another node.
pub open spec fn has_next(s: Seq<usize>, node: usize) -> bool {
    exists|k: int| 0 <= k < s.len() - 1 && s[k] == node
}

/// The node that follows `node` in `s` (meaningful when `has_next` holds
/// and `s` has no duplicates).
pub open spec fn next_in_tour(s: Seq<usize>, node: usize) -> usize {
    s[(choose|k: int| 0 <= k < s.len() - 1 && s[k] == node) + 1]
}

/// The first entry of `nb` at or after `r` that `placed` does not hold.
pub open spec fn first_unvisited_from(nb: Seq<usize>, placed: Seq<usize>, r: int) -> usize
    decreases nb.len() - r,
{
    if r < 0 || r >= nb.len() {
        0
    } else if !placed.contains(nb[r]) {
        nb[r]
    } else {
        first_unvisited_from(nb, placed, r + 1)
    }
}

/// The node the recombination places after the prefix `placed`: the closer
/// of the two parents' successors of the last placed node if it is still
/// free, else the other, else the nearest still-free neighbor.
#[verifier::opaque]
pub open spec fn chosen_next(
    dataset: &Dataset,
    pa: Seq<usize>,
    pb: Seq<usize>,
    placed: Seq<usize>,
) -> usize {
    let last = placed.last();
    let fallback = first_unvisited_from(dataset.nodes_neighbors@[last as int]@, placed, 0);
    if has_next(pa, last) && has_next(pb, last) {
        let n1 = next_in_tour(pa, last);
        let n2 = next_in_tour(pb, last);
        let closer_first = dataset.distance_matrix.spec_dist(last as int, n1 as int)
            < dataset.distance_matrix.spec_dist(last as int, n2 as int);
        let c1 = if closer_first {
            n1
        } else {
            n2
        };
        let c2 = if closer_first {
            n2
        } else {
            n1
        };
        if !placed.contains(c1) {
            c1
        } else if !placed.contains(c2) {
            c2
        } else {
            fallback
        }
    } else if has_next(pa, last) {
        let n1 = next_in_tour(pa, last);
        if !placed.contains(n1) {
            n1
        } else {
            fallback
        }
    } else if has_next(pb, last) {
        let n2 = next_in_tour(pb, last);
        if !placed.contains(n2) {
            n2
        } else {
            fallback
        }
    } else {
        fallback
    }
}

proof fn lemma_crossover_identity_upto(dataset: &Dataset, a: Seq<usize>, child: Seq<usize>, i: int)
    requires
        dataset.wf(),
        is_permutation(a, dataset.size as int),
        child.len() == a.len(),
        child[0] == a[0],
        forall|p: int|
            1 <= p < child.len() ==> (#[trigger] child[p]) == chosen_next(
                dataset,
                a,
                a,
                child.subrange(0, p),
            ),
        1 <= i <= child.len(),
    ensures
        child.subrange(0, i) =~= a.subrange(0, i),
    decreases i,
{
    if i == 1 {
        assert(child.subrange(0, 1) =~= a.subrange(0, 1));
    } else {
        lemma_crossover_identity_upto(dataset, a, child, i - 1);
        reveal(chosen_next);
        let placed = child.subrange(0, i - 1);
        assert(placed =~= a.subrange(0, i - 1));
        let last = a[i - 2];
        assert(placed.last() == last);
        assert(has_next(a, last)) by {
            assert(a[i - 2] == last);
        };
        assert(next_in_tour(a, last) == a[i - 1]) by {
            let c = choose|k: int| 0 <= k < a.len() - 1 && a[k] == last;
            if c != i - 2 {
                assert(a[c] != a[i - 2]);
            }
        };
        assert(!placed.contains(a[i - 1])) by {
            if placed.contains(a[i - 1]) {
                let t = choose|t: int| 0 <= t < placed.len() && (#[trigger] placed[t]) == a[i
                    - 1];
                assert(a[t] == a[i - 1]);
                assert(t != i - 1);
            }
        };
        assert(child[i - 1] == chosen_next(dataset, a, a, placed));
        assert(chosen_next(dataset, a, a, placed) == a[i - 1]);
        assert(child.subrange(0, i) =~= a.subrange(0, i));
    }
}

/// When both parents are the same tour, every greedy step takes that tour's
/// own next edge, so recombining a tour with itself reproduces it exactly.
pub proof fn lemma_crossover_identical_parents(dataset: &Dataset, a: Seq<usize>, child: Seq<usize>)
    requires
        dataset.wf(),
        is_permutation(a, dataset.size as int),
        child.len() == a.len(),
        child[0] == a[0],
        forall|p: int|
            1 <= p < child.len() ==> (#[trigger] child[p]) == chosen_next(
                dataset,
                a,
                a,
                child.subrange(0, p),
            ),
    ensures
        child == a,
{
    lemma_crossover_identity_upto(dataset, a, child, a.len() as int);
    assert(child =~= child.subrange(0, child.len() as int));
    assert(a =~= a.subrange(0, a.len() as int));
}

/// A vector of `n` `None`s.
fn none_vec(n: usize) -> (v: Vec<Option<usize>>)
    ensures
        v@.len() == n,
        forall|k: int| 0 <= k < n ==> (#[trigger] v@[k]) is None,
{
    let mut v: Vec<Option<usize>> = Vec::new();
    let mut i: usize = 0;
    while i < n
        invariant
            i <= n,
            v@.len() == i,
            forall|k: int| 0 <= k < i ==> (#[trigger] v@[k]) is None,
        decreases n - i,
    {
        v.push(None);
        i = i + 1;
    }
    v
}

/// A vector of `n` `true`s.
fn true_vec(n: usize) -> (v: Vec<bool>)
    ensures
        v@.len() == n,
        forall|k: int| 0 <= k < n ==> (#[trigger] v@[k]) == true,
{
    let mut v: Vec<bool> = Vec::new();
    let mut i: usize = 0;
    while i < n
        invariant
            i <= n,
            v@.len() == i,
            forall|k: int| 0 <= k < i ==> (#[trigger] v@[k]) == true,
        decreases n - i,
    {
        v.push(true);
        i = i + 1;
    }
    v
}

/// For each node, the node that follows it in `nodes` (absent for the tour's
/// last node).
#[verifier::loop_isolation(false)]
fn build_nodemap(nodes: &Vec<usize>, size: usize) -> (nm: Vec<Option<usize>>)
    requires
        is_permutation(nodes@, size as int),
        1 <= size,
    ensures
        nm@.len() == size,
        forall|v: int|
            0 <= v < size ==> (#[trigger] nm@[v]) == (if has_next(nodes@, v as usize) {
                Some(next_in_tour(nodes@, v as usize))
            } else {
                Option::<usize>::None
            }),
{
    let mut nm = none_vec(size);
    let mut k: usize = 0;
    while k < size - 1
        invariant
            k <= size - 1,
            nm@.len() == size,
            forall|v: int|
                0 <= v < size ==> (#[trigger] nm@[v]) == (if (exists|t: int|
                    0 <= t < k && nodes@[t] == v) {
                    Some(next_in_tour(nodes@, v as usize))
                } else {
                    Option::<usize>::None
                }),
        decreases size - k,
    {
        let node = nodes[k];
        let ghost prev = nm@;
        nm.set(node, Some(nodes[k + 1]));
        proof {
            assert forall|t: int| 0 <= t < nodes@.len() - 1 && nodes@[t] == node implies t
                == k by {
                if t != k {
                    assert(nodes@[t] != nodes@[k as int]);
                }
            };
            assert(has_next(nodes@, node));
            assert(next_in_tour(nodes@, node) == nodes@[k + 1]) by {
                let c = choose|t: int| 0 <= t < nodes@.len() - 1 && nodes@[t] == node;
                assert(c == k);
            };
            assert forall|v: int| 0 <= v < size implies (#[trigger] nm@[v]) == (if (
            exists|t: int| 0 <= t < k + 1 && nodes@[t] == v) {
                Some(next_in_tour(nodes@, v as usize))
            } else {
                Option::<usize>::None
            }) by {
                if v == node {
                    assert(nodes@[k as int] == v);
                } else {
                    assert(nm@[v] == prev[v]);
                    assert forall|t: int| 0 <= t < k + 1 && nodes@[t] == v implies t < k by {
                        if t == k {
                            assert(nodes@[t] == node);
                        }
                    };
                }
            };
        }
        k = k + 1;
    }
    nm
}

/// Scans the neighbor ranking of `last` for the nearest node not yet
/// placed; some node must still be free.
#[verifier::loop_isolation(false)]
fn first_unvisited(
    dataset: &Dataset,
    last: usize,
    remaining: &Vec<bool>,
    Ghost(placed): Ghost<Seq<usize>>,
) -> (nxt: usize)
    requires
        dataset.wf(),
        last < dataset.size,
        remaining@.len() == dataset.size,
        forall|v: int|
            0 <= v < dataset.size ==> (#[trigger] remaining@[v]) == !placed.contains(v as usize),
        exists|v: usize| (v as int) < dataset.size && !placed.contains(v),
    ensures
        nxt < dataset.size,
        !placed.contains(nxt),
        nxt == first_unvisited_from(dataset.nodes_neighbors@[last as int]@, placed, 0),
{
    let nb = &dataset.nodes_neighbors[last];
    let ghost nbs = nb@;
    let mut r: usize = 0;
    while r < nb.len()
        invariant
            r <= nbs.len(),
            forall|t: int| 0 <= t < r ==> placed.contains(#[trigger] nbs[t]),
            first_unvisited_from(nbs, placed, 0) == first_unvisited_from(nbs, placed, r as int),
        decreases nbs.len() - r,
    {
        let candidate = nb[r];
        if remaining[candidate] {
            return candidate;
        }
        r = r + 1;
    }
    proof {
        let v = choose|v: usize| (v as int) < dataset.size && !placed.contains(v);
        lemma_permutation_contains(nbs, dataset.size as int, v);
        let t = choose|t: int| 0 <= t < nbs.len() && nbs[t] == v;
        assert(placed.contains(nbs[t]));
        assert(false);
    }
    0
}

/// One placement step of the recombination: given the parents' successors
/// of the last placed node, picks the node the greedy preference rule
/// chooses.
#[verifier::loop_isolation(false)]
fn pick_next(
    dataset: &Dataset,
    parent1_next: Option<usize>,
    parent2_next: Option<usize>,
    last_node: usize,
    remaining: &Vec<bool>,
    Ghost(pa): Ghost<Seq<usize>>,
    Ghost(pb): Ghost<Seq<usize>>,
    Ghost(placed): Ghost<Seq<usize>>,
) -> (next: usize)
    requires
        dataset.wf(),
        last_node < dataset.size,
        1 <= placed.len() < dataset.size,
        placed.last() == last_node,
        placed.no_duplicates(),
        forall|t: int| 0 <= t < placed.len() ==> (#[trigger] placed[t]) < dataset.size,
        remaining@.len() == dataset.size,
        forall|v: int|
            0 <= v < dataset.size ==> (#[trigger] remaining@[v]) == !placed.contains(v as usize),
        parent1_next == (if has_next(pa, last_node) {
            Some(next_in_tour(pa, last_node))
        } else {
            Option::<usize>::None
        }),
        parent2_next == (if has_next(pb, last_node) {
            Some(next_in_tour(pb, last_node))
        } else {
            Option::<usize>::None
        }),
        has_next(pa, last_node) ==> next_in_tour(pa, last_node) < dataset.size,
        has_next(pb, last_node) ==> next_in_tour(pb, last_node) < dataset.size,
    ensures
        next < dataset.size,
        !placed.contains(next),
        next == chosen_next(dataset, pa, pb, placed),
{
    proof {
        reveal(chosen_next);
        lemma_partial_fill_has_free(placed, dataset.size as int);
    }
    match (parent1_next, parent2_next) {
        (Some(p1_next), Some(p2_next)) => {
            let d1 = dataset.distance_matrix.get(last_node, p1_next);
            let d2 = dataset.distance_matrix.get(last_node, p2_next);
            let c1 = if d1 < d2 {
                p1_next
            } else {
                p2_next
            };
            let c2 = if d1 < d2 {
                p2_next
            } else {
                p1_next
            };
            if remaining[c1] {
                c1
            } else if remaining[c2] {
                c2
            } else {
                first_unvisited(dataset, last_node, remaining, Ghost(placed))
            }
        },
        (Some(p1_next), None) => {
            if remaining[p1_next] {
                p1_next
            } else {
                first_unvisited(dataset, last_node, remaining, Ghost(placed))
            }
        },
        (None, Some(p2_next)) => {
            if remaining[p2_next] {
                p2_next
            } else {
                first_unvisited(dataset, last_node, remaining, Ghost(placed))
            }
        },
        (None, None) => first_unvisited(dataset, last_node, remaining, Ghost(placed)),
    }
}

/// `s` with the segment `[a, b]` reversed.
pub open spec fn reversed_segment(s: Seq<usize>, a: int, b: int) -> Seq<usize> {
    Seq::new(
        s.len(),
        |k: int|
            if a <= k <= b {
                s[b - (k - a)]
            } else {
                s[k]
            },
    )
}

/// The position of `v` in `s` (meaningful when `s` holds `v` exactly once).
pub open spec fn index_of(s: Seq<usize>, v: usize) -> int {
    choose|i: int| 0 <= i < s.len() && s[i] == v
}

/// The tour after the neighbor exchange: the node at `p` and the node
/// ranked `r` among its neighbors swap places.
pub open spec fn neighbor_exchanged(dataset: &Dataset, s: Seq<usize>, p: int, r: int) -> Seq<
    usize,
> {
    let node1 = s[p];
    let node2 = dataset.nodes_neighbors@[node1 as int]@[r];
    let q = index_of(s, node2);
    s.update(p, node2).update(q, node1)
}

impl Individual {
    /// Greedy edge-preference recombination: the child starts at the first
    /// parent's first node and repeatedly takes the closer of the parents'
    /// successors of its last node when that node is still free, the other
    /// if not, and the nearest still-free neighbor when both are taken.
    #[verifier::rlimit(100)]
    pub fn crossover(parent1: &Individual, parent2: &Individual, dataset: &Dataset) -> (child:
        Individual)
        requires
            dataset.wf(),
            parent1.wf(dataset),
            parent2.wf(dataset),
        ensures
            child.wf(dataset),
            child.nodes@.len() == dataset.size,
            child.nodes@[0] == parent1.nodes@[0],
            forall|i: int|
                1 <= i < child.nodes@.len() ==> (#[trigger] child.nodes@[i]) == chosen_next(
                    dataset,
                    parent1.nodes@,
                    parent2.nodes@,
                    child.nodes@.subrange(0, i),
                ),
    {
        let size = parent1.size;
        let parent1_nodemap = build_nodemap(&parent1.nodes, size);
        let parent2_nodemap = build_nodemap(&parent2.nodes, size);

        let mut child = Individual::new_empty_from_parent(parent1);
        let first = parent1.nodes[0];
        child.nodes.set(0, first);

        let mut remaining = true_vec(size);
        remaining.set(first, false);
        proof {
            assert forall|v: int| 0 <= v < size implies (#[trigger] remaining@[v])
                == !child.nodes@.subrange(0, 1).contains(v as usize) by {
                if child.nodes@.subrange(0, 1).contains(v as usize) {
                    let t = choose|t: int|
                        0 <= t < 1 && child.nodes@.subrange(0, 1)[t] == v as usize;
                    assert(t == 0);
                } else {
                    assert(child.nodes@.subrange(0, 1)[0] == first);
                }
            };
        }

        let mut i: usize = 1;
        while i < size
            invariant
                dataset.wf(),
                parent1.wf(dataset),
                parent2.wf(dataset),
                size == dataset.size,
                parent1_nodemap@.len() == size,
                parent2_nodemap@.len() == size,
                forall|v: int|
                    0 <= v < size ==> (#[trigger] parent1_nodemap@[v]) == (if has_next(
                        parent1.nodes@,
                        v as usize,
                    ) {
                        Some(next_in_tour(parent1.nodes@, v as usize))
                    } else {
                        Option::<usize>::None
                    }),
                forall|v: int|
                    0 <= v < size ==> (#[trigger] parent2_nodemap@[v]) == (if has_next(
                        parent2.nodes@,
                        v as usize,
                    ) {
                        Some(next_in_tour(parent2.nodes@, v as usize))
                    } else {
                        Option::<usize>::None
                    }),
                1 <= i <= size,
                child.size == size,
                child.nodes@.len() == size,
                forall|p: int| 0 <= p < i ==> (#[trigger] child.nodes@[p]) < size,
                forall|p: int, q: int| 0 <= p < q < i ==> child.nodes@[p] != child.nodes@[q],
                child.nodes@[0] == parent1.nodes@[0],
                forall|p: int|
                    1 <= p < i ==> (#[trigger] child.nodes@[p]) == chosen_next(
                        dataset,
                        parent1.nodes@,
                        parent2.nodes@,
                        child.nodes@.subrange(0, p),
                    ),
                remaining@.len() == size,
                forall|v: int|
                    0 <= v < size ==> (#[trigger] remaining@[v]) == !child.nodes@.subrange(
                        0,
                        i as int,
                    ).contains(v as usize),
            decreases size - i,
        {
            let last_node = child.nodes[i - 1];
            let ghost placed = child.nodes@.subrange(0, i as int);
            proof {
                assert(placed.last() == last_node);
                assert(placed.no_duplicates());
                if has_next(parent1.nodes@, last_node) {
                    let c = choose|k: int|
                        0 <= k < parent1.nodes@.len() - 1 && parent1.nodes@[k] == last_node;
                    assert(parent1.nodes@[c + 1] < size);
                }
                if has_next(parent2.nodes@, last_node) {
                    let c = choose|k: int|
                        0 <= k < parent2.nodes@.len() - 1 && parent2.nodes@[k] == last_node;
                    assert(parent2.nodes@[c + 1] < size);
                }
            }
            let parent1_next = parent1_nodemap[last_node];
            let parent2_next = parent2_nodemap[last_node];

            let next: usize = pick_next(
                dataset,
                parent1_next,
                parent2_next,
                last_node,
                &remaining,
                Ghost(parent1.nodes@),
                Ghost(parent2.nodes@),
                Ghost(placed),
            );
            let ghost prev_nodes = child.nodes@;
            remaining.set(next, false);
            child.nodes.set(i, next);
            proof {
                assert(child.nodes@.subrange(0, i + 1) =~= placed.push(next));
                assert forall|p: int, q: int| 0 <= p < q < i + 1 implies child.nodes@[p]
                    != child.nodes@[q] by {
                    if q == i {
                        assert(placed[p] == child.nodes@[p]);
                        assert(placed[p] != next);
                    }
                };
                assert forall|p: int| 1 <= p < i + 1 implies (#[trigger] child.nodes@[p])
                    == chosen_next(
                    dataset,
                    parent1.nodes@,
                    parent2.nodes@,
                    child.nodes@.subrange(0, p),
                ) by {
                    assert(child.nodes@.subrange(0, p) =~= prev_nodes.subrange(0, p));
                    if p < i {
                        assert(prev_nodes[p] == chosen_next(
                            dataset,
                            parent1.nodes@,
                            parent2.nodes@,
                            prev_nodes.subrange(0, p),
                        ));
                    } else {
                        assert(child.nodes@.subrange(0, p) =~= placed);
                    }
                };
                assert forall|v: int| 0 <= v < size implies (#[trigger] remaining@[v])
                    == !child.nodes@.subrange(0, i + 1).contains(v as usize) by {
                    if child.nodes@.subrange(0, i + 1).contains(v as usize) {
                        let t = choose|t: int|
                            0 <= t < i + 1 && (#[trigger] child.nodes@.subrange(0, i + 1)[t])
                                == v as usize;
                        if t < i {
                            assert(placed.contains(v as usize));
                        }
                    } else {
                        assert(child.nodes@.subrange(0, i + 1)[i as int] == next);
                        if v == next {
                            assert(child.nodes@.subrange(0, i + 1).contains(v as usize));
                        }
                        if placed.contains(v as usize) {
                            let t = choose|t: int|
                                0 <= t < placed.len() && (#[trigger] placed[t]) == v as usize;
                            assert(child.nodes@.subrange(0, i + 1)[t] == v as usize);
                            assert(child.nodes@.subrange(0, i + 1).contains(v as usize));
                        }
                    }
                };
            }
            i = i + 1;
        }

        let length = compute_length(&dataset.distance_matrix, &child.nodes, size);
        child.length = length;
        child
    }

    /// A uniformly shuffled ordering of all nodes, with its length.
    pub fn new(dataset: &Dataset, rng: &mut rand::rngs::StdRng) -> (ind: Individual)
        requires
            dataset.wf(),
        ensures
            ind.wf(dataset),
    {
        let mut nodes = identity_nodes(dataset.size);
        shuffle(rng, &mut nodes);
        proof {
            lemma_permutation_transfers(
                identity_order(dataset.size as int),
                nodes@,
                dataset.size as int,
            );
        }
        let length = compute_length(&dataset.distance_matrix, &nodes, dataset.size);
        Individual { size: dataset.size, nodes, length }
    }

    /// A blank tour of the parent's size, to be filled position by position.
    pub fn new_empty_from_parent(parent: &Individual) -> (ind: Individual)
        ensures
            ind.size == parent.size,
            ind.nodes@.len() == parent.size,
            forall|k: int| 0 <= k < parent.size ==> (#[trigger] ind.nodes@[k]) == 0,
            ind.length == 0,
    {
        Individual { size: parent.size, nodes: zero_nodes(parent.size), length: 0 }
    }

    /// Perturbs the tour `best_out_of` times independently (a segment
    /// reversal followed by a neighbor exchange, lengths recomputed) and
    /// returns the shortest result; ties keep the earliest.
    #[verifier::loop_isolation(false)]
    pub fn mutate(
        &self,
        rng: &mut rand::rngs::StdRng,
        dataset: &Dataset,
        neighbors_distance_lookup: usize,
        best_out_of: usize,
    ) -> (child: Individual)
        requires
            dataset.wf(),
            self.wf(dataset),
            1 <= neighbors_distance_lookup < dataset.size,
            1 <= best_out_of,
        ensures
            child.wf(dataset),
    {
        let mut best_child: Option<Individual> = None;
        let mut round: usize = 0;
        while round < best_out_of
            invariant
                dataset.wf(),
                self.wf(dataset),
                1 <= neighbors_distance_lookup < dataset.size,
                round <= best_out_of,
                round > 0 ==> best_child is Some,
                best_child matches Some(b) ==> b.wf(dataset),
            decreases best_out_of - round,
        {
            // the segment to reverse, between two random positions
            let mut start = rand_below(rng, self.size);
            let mut end = rand_below(rng, self.size);
            if start > end {
                let tmp = start;
                start = end;
                end = tmp;
            }
            // the random node and the random neighbor rank to exchange
            let exchange_position = rand_below(rng, self.size);
            let neighbor_rank = rand_below(rng, neighbors_distance_lookup);

            let child = self.perturbed(dataset, start, end, exchange_position, neighbor_rank);

            best_child = match best_child {
                None => Some(child),
                Some(bc) => {
                    if child.length < bc.length {
                        Some(child)
                    } else {
                        Some(bc)
                    }
                },
            };
            round = round + 1;
        }
        best_child.unwrap()
    }

    /// One compound perturbation, pinned down exactly: reverse the segment
    /// `[start, end]`, then swap the node at `exchange_position` with the
    /// node ranked `neighbor_rank` among its neighbors, and recompute the
    /// length.
    pub fn perturbed(
        &self,
        dataset: &Dataset,
        start: usize,
        end: usize,
        exchange_position: usize,
        neighbor_rank: usize,
    ) -> (child: Individual)
        requires
            dataset.wf(),
            self.wf(dataset),
            start <= end < dataset.size,
            exchange_position < dataset.size,
            neighbor_rank < dataset.size,
        ensures
            child.wf(dataset),
            child.nodes@ == neighbor_exchanged(
                dataset,
                reversed_segment(self.nodes@, start as int, end as int),
                exchange_position as int,
                neighbor_rank as int,
            ),
    {
        let mut child = Individual {
            size: self.size,
            nodes: copy_nodes(&self.nodes),
            length: self.length,
        };
        reverse_segment(&mut child.nodes, start, end);
        proof {
            assert(child.nodes@ =~= reversed_segment(self.nodes@, start as int, end as int));
            lemma_permutation_transfers(self.nodes@, child.nodes@, dataset.size as int);
        }
        let ghost rev = child.nodes@;

        let node_1 = child.nodes[exchange_position];
        let node_2 = dataset.nodes_neighbors[node_1][neighbor_rank];
        proof {
            lemma_permutation_contains(child.nodes@, dataset.size as int, node_2);
        }
        let index_2 = find_position(&child.nodes, node_2);
        proof {
            let q = index_of(rev, node_2);
            assert(0 <= q < rev.len() && rev[q] == node_2);
            assert(q == index_2);
        }
        swap_nodes(&mut child.nodes, exchange_position, index_2);
        proof {
            assert(child.nodes@ =~= neighbor_exchanged(
                dataset,
                rev,
                exchange_position as int,
                neighbor_rank as int,
            ));
            lemma_permutation_transfers(rev, child.nodes@, dataset.size as int);
        }

        child.length = compute_length(&dataset.distance_matrix, &child.nodes, child.size);
        child
    }
}


// Tours compare by cached length alone: a shorter tour is a better one, and
// equal lengths are equal whatever their orderings.
impl PartialEq for Individual {
    fn eq(&self, other: &Self) -> bool {
        self.length == other.length
    }
}

impl vstd::std_specs::cmp::PartialEqSpecImpl for Individual {
    open spec fn obeys_eq_spec() -> bool {
        true
    }

    open spec fn eq_spec(&self, other: &Individual) -> bool {
        self.length == other.length
    }
}

impl PartialOrd for Individual {
    fn partial_cmp(&self, other: &Self) -> Option<core::cmp::Ordering> {
        if self.length < other.length {
            Some(core::cmp::Ordering::Less)
        } else if self.length == other.length {
            Some(core::cmp::Ordering::Equal)
        } else {
            Some(core::cmp::Ordering::Greater)
        }
    }
}

impl vstd::std_specs::cmp::PartialOrdSpecImpl for Individual {
    open spec fn obeys_partial_cmp_spec() -> bool {
        true
    }

    open spec fn partial_cmp_spec(&self, other: &Individual) -> Option<core::cmp::Ordering> {
        if self.length < other.length {
            Some(core::cmp::Ordering::Less)
        } else if self.length == other.length {
            Some(core::cmp::Ordering::Equal)
        } else {
            Some(core::cmp::Ordering::Greater)
        }
    }
}

} // verus!
