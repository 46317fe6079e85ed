use vstd::prelude::*;
use vstd::relations::injective;
use vstd::seq_lib::group_to_multiset_ensures;
use vstd::set_lib::{lemma_int_range, lemma_len_subset, lemma_subset_equality, set_int_range};

verus! {

/// `s` lists every node index below `n` exactly once.
pub open spec fn is_permutation(s: Seq<usize>, n: int) -> bool {
    &&& s.len() == n
    &&& forall|i: int| 0 <= i < s.len() ==> (#[trigger] s[i]) < n
    &&& s.no_duplicates()
}

/// The ordering that visits the `n` nodes by ascending index.
pub open spec fn identity_order(n: int) -> Seq<usize> {
    Seq::new(n as nat, |i: int| i as usize)
}

/// Builds the vector `[0, 1, ..., n - 1]`.
pub fn identity_nodes(n: usize) -> (v: Vec<usize>)
    ensures
        v@ == identity_order(n as int),
        is_permutation(v@, n as int),
{
    let mut v: Vec<usize> = Vec::new();
    for i in 0..n
        invariant
            v@.len() == i,
            forall|j: int| 0 <= j < i ==> v@[j] == j,
    {
        v.push(i);
    }
    proof {
        assert(v@ =~= identity_order(n as int));
    }
    v
}

pub proof fn lemma_swap_multiset(s: Seq<usize>, i: int, j: int)
    requires
        0 <= i < s.len(),
        0 <= j < s.len(),
        i != j,
    ensures
        s.update(i, s[j]).update(j, s[i]).to_multiset() == s.to_multiset(),
{
    broadcast use group_to_multiset_ensures;

    let s1 = s.update(i, s[j]);
    let s2 = s1.update(j, s[i]);
    assert(s.contains(s[i]));
    assert(s.to_multiset().count(s[i]) > 0);
    assert(s1[j] == s[j]);
    assert(s2.to_multiset() =~= s.to_multiset());
}

/// Swaps the entries of `v` at `i` and `j`.
pub fn swap_nodes(v: &mut Vec<usize>, i: usize, j: usize)
    requires
        i < old(v)@.len(),
        j < old(v)@.len(),
    ensures
        final(v)@ == old(v)@.update(i as int, old(v)@[j as int]).update(
            j as int,
            old(v)@[i as int],
        ),
        final(v)@.to_multiset() == old(v)@.to_multiset(),
        final(v)@.len() == old(v)@.len(),
{
    if i != j {
        let a = v[i];
        let b = v[j];
        v.set(i, b);
        v.set(j, a);
        proof {
            lemma_swap_multiset(old(v)@, i as int, j as int);
        }
    } else {
        proof {
            assert(old(v)@.update(i as int, old(v)@[j as int]).update(
                j as int,
                old(v)@[i as int],
            ) =~= old(v)@);
        }
    }
}

/// Reordering a sequence preserves being a permutation.
pub proof fn lemma_permutation_transfers(s1: Seq<usize>, s2: Seq<usize>, n: int)
    requires
        is_permutation(s1, n),
        s1.to_multiset() == s2.to_multiset(),
    ensures
        is_permutation(s2, n),
{
    broadcast use group_to_multiset_ensures;

    s1.lemma_multiset_has_no_duplicates();
    assert forall|i: int| 0 <= i < s2.len() implies (#[trigger] s2[i]) < n by {
        assert(s2.contains(s2[i]));
        assert(s2.to_multiset().count(s2[i]) > 0);
        assert(s1.contains(s2[i]));
        let j = choose|j: int| 0 <= j < s1.len() && s1[j] == s2[i];
        assert(s1[j] < n);
    };
    assert forall|x: usize| s2.to_multiset().contains(x) implies s2.to_multiset().count(x)
        == 1 by {
        assert(s1.to_multiset().contains(x));
    };
    s2.lemma_multiset_has_no_duplicates_conv();
    assert(s1.len() == s1.to_multiset().len());
    assert(s2.len() == s2.to_multiset().len());
}

/// Fewer distinct values below `n` than `n` leave some value below `n`
/// unused (a pigeonhole argument).
pub proof fn lemma_partial_fill_has_free(s: Seq<usize>, n: int)
    requires
        s.no_duplicates(),
        forall|k: int| 0 <= k < s.len() ==> (#[trigger] s[k]) < n,
        s.len() < n <= usize::MAX,
    ensures
        exists|v: usize| (v as int) < n && !s.contains(v),
{
    if forall|v: usize| (v as int) < n ==> #[trigger] s.contains(v) {
        let f = |u: usize| u as int;
        let si = s.map_values(f);
        assert(injective(f));
        s.lemma_no_duplicates_injective(f);
        si.unique_seq_to_set();
        lemma_int_range(0, n);
        assert(set_int_range(0, n).subset_of(si.to_set())) by {
            assert forall|x: int| set_int_range(0, n).contains(x) implies si.to_set().contains(
                x,
            ) by {
                let v = x as usize;
                assert(s.contains(v));
                let t = choose|t: int| 0 <= t < s.len() && s[t] == v;
                assert(si[t] == x);
                assert(si.contains(x));
            };
        };
        lemma_len_subset(set_int_range(0, n), si.to_set());
        assert(false);
    }
}

/// A permutation of `0..n` holds every index below `n` somewhere (a
/// pigeonhole argument).
pub proof fn lemma_permutation_contains(s: Seq<usize>, n: int, k: usize)
    requires
        is_permutation(s, n),
        k < n,
    ensures
        exists|i: int| 0 <= i < s.len() && s[i] == k,
{
    let f = |u: usize| u as int;
    let si = s.map_values(f);
    assert(injective(f));
    s.lemma_no_duplicates_injective(f);
    si.unique_seq_to_set();
    lemma_int_range(0, n);
    assert(si.to_set().subset_of(set_int_range(0, n))) by {
        assert forall|x: int| si.to_set().contains(x) implies set_int_range(0, n).contains(
            x,
        ) by {
            let i = choose|i: int| 0 <= i < si.len() && si[i] == x;
            assert(s[i] < n);
        };
    };
    lemma_len_subset(si.to_set(), set_int_range(0, n));
    lemma_subset_equality(si.to_set(), set_int_range(0, n));
    assert(set_int_range(0, n).contains(k as int));
    assert(si.to_set().contains(k as int));
    let i = choose|i: int| 0 <= i < si.len() && si[i] == k as int;
    assert(s[i] == k);
}

} // verus!
