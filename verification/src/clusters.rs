//! Dealing departments to clusters.
//!
//! `nb_departments` departments are dealt to `nb_clusters` clusters as evenly
//! as possible: every cluster gets the whole quotient, and the first
//! `nb_departments % nb_clusters` clusters get one department more. Cluster 0
//! holds the first departments, cluster 1 the next ones, and so on.

use vstd::prelude::*;
use vstd::arithmetic::div_mod::lemma_fundamental_div_mod;

verus! {

/// The number of departments in cluster `i`.
pub open spec fn cluster_size(nb_departments: nat, nb_clusters: nat, i: nat) -> nat {
    nb_departments / nb_clusters + if i < nb_departments % nb_clusters {
        1nat
    } else {
        0nat
    }
}

/// The sizes of the clusters, cluster 0 first.
pub open spec fn even_partition(nb_departments: usize, nb_clusters: usize) -> Seq<usize> {
    Seq::new(
        nb_clusters as nat,
        |i: int| cluster_size(nb_departments as nat, nb_clusters as nat, i as nat) as usize,
    )
}

/// The number of departments in the first `k` clusters, which is also the
/// index of the first department of cluster `k`.
pub open spec fn first_of(sizes: Seq<usize>, k: int) -> int
    decreases k,
{
    if k <= 0 {
        0
    } else {
        first_of(sizes, k - 1) + sizes[k - 1]
    }
}

/// The number of departments in all the clusters.
pub open spec fn total(sizes: Seq<usize>) -> int {
    first_of(sizes, sizes.len() as int)
}

/// Department `x` belongs to cluster `a`.
pub open spec fn holds(sizes: Seq<usize>, a: int, x: int) -> bool {
    &&& 0 <= a < sizes.len()
    &&& first_of(sizes, a) <= x < first_of(sizes, a) + sizes[a]
}

/// The cluster that department `x` belongs to.
pub open spec fn cluster_of(sizes: Seq<usize>, x: int) -> int {
    choose|a: int| holds(sizes, a, x)
}

/// Clusters lie one behind the other: a later cluster starts where an earlier
/// one has ended, or further on.
pub proof fn lemma_clusters_in_order(sizes: Seq<usize>, a: int, b: int)
    requires
        0 <= a < b <= sizes.len(),
    ensures
        0 <= first_of(sizes, a),
        first_of(sizes, a) + sizes[a] <= first_of(sizes, b),
    decreases b,
{
    lemma_first_of_nonnegative(sizes, a);
    if a + 1 < b {
        lemma_clusters_in_order(sizes, a, b - 1);
    }
}

proof fn lemma_first_of_nonnegative(sizes: Seq<usize>, k: int)
    ensures
        0 <= first_of(sizes, k),
    decreases k,
{
    if k > 0 {
        lemma_first_of_nonnegative(sizes, k - 1);
    }
}

/// Each department belongs to one cluster, and to no other.
pub proof fn lemma_cluster_of(sizes: Seq<usize>, x: int)
    requires
        0 <= x < total(sizes),
    ensures
        holds(sizes, cluster_of(sizes, x), x),
        forall|a: int| holds(sizes, a, x) ==> a == cluster_of(sizes, x),
{
    lemma_some_cluster_holds(sizes, sizes.len() as int, x);
    let c = cluster_of(sizes, x);
    assert forall|a: int| holds(sizes, a, x) implies a == c by {
        if a < c {
            lemma_clusters_in_order(sizes, a, c);
        } else if c < a {
            lemma_clusters_in_order(sizes, c, a);
        }
    }
}

proof fn lemma_some_cluster_holds(sizes: Seq<usize>, k: int, x: int)
    requires
        0 <= k <= sizes.len(),
        0 <= x < first_of(sizes, k),
    ensures
        exists|a: int| holds(sizes, a, x),
    decreases k,
{
    if x >= first_of(sizes, k - 1) {
        assert(holds(sizes, k - 1, x));
    } else {
        lemma_some_cluster_holds(sizes, k - 1, x);
    }
}

/// No cluster of an even partition is larger than the whole.
proof fn lemma_cluster_size_fits(nb_departments: usize, nb_clusters: usize, i: int)
    requires
        nb_clusters >= 1,
        0 <= i < nb_clusters,
    ensures
        even_partition(nb_departments, nb_clusters)[i] == cluster_size(
            nb_departments as nat,
            nb_clusters as nat,
            i as nat,
        ),
{
    let q = (nb_departments / nb_clusters) as int;
    lemma_fundamental_div_mod(nb_departments as int, nb_clusters as int);
    assert(q <= nb_clusters * q) by (nonlinear_arith)
        requires
            nb_clusters >= 1,
            q >= 0,
    ;
}

/// The first `k` clusters of an even partition hold `k` whole quotients and
/// one department more for each of them that is among the first
/// `nb_departments % nb_clusters`.
proof fn lemma_partition_prefix(nb_departments: usize, nb_clusters: usize, k: int)
    requires
        nb_clusters >= 1,
        0 <= k <= nb_clusters,
    ensures
        first_of(even_partition(nb_departments, nb_clusters), k) == k * (nb_departments
            / nb_clusters) + if k < nb_departments % nb_clusters {
            k
        } else {
            (nb_departments % nb_clusters) as int
        },
    decreases k,
{
    let q = (nb_departments / nb_clusters) as int;
    if k > 0 {
        lemma_partition_prefix(nb_departments, nb_clusters, k - 1);
        lemma_cluster_size_fits(nb_departments, nb_clusters, k - 1);
        assert(k * q == (k - 1) * q + q) by (nonlinear_arith);
    } else {
        assert(0 * q == 0);
    }
}

/// An even partition leaves no department out and counts none twice, and no
/// cluster is further than one from the exact quotient.
pub proof fn lemma_partition_is_even(nb_departments: usize, nb_clusters: usize)
    requires
        nb_clusters >= 1,
    ensures
        total(even_partition(nb_departments, nb_clusters)) == nb_departments,
        forall|i: int|
            0 <= i < nb_clusters ==> {
                let size = #[trigger] even_partition(nb_departments, nb_clusters)[i];
                &&& size == cluster_size(nb_departments as nat, nb_clusters as nat, i as nat)
                &&& nb_departments / nb_clusters <= size <= nb_departments / nb_clusters + 1
                &&& nb_clusters * size - nb_clusters < nb_departments < nb_clusters * size
                    + nb_clusters
            },
{
    let sizes = even_partition(nb_departments, nb_clusters);
    let q = (nb_departments / nb_clusters) as int;
    let r = (nb_departments % nb_clusters) as int;
    let c = nb_clusters as int;
    lemma_partition_prefix(nb_departments, nb_clusters, c);
    lemma_fundamental_div_mod(nb_departments as int, c);
    assert(c * q == q * c) by (nonlinear_arith);
    assert forall|i: int| 0 <= i < nb_clusters implies {
        let size = #[trigger] sizes[i];
        &&& size == cluster_size(nb_departments as nat, nb_clusters as nat, i as nat)
        &&& nb_departments / nb_clusters <= size <= nb_departments / nb_clusters + 1
        &&& nb_clusters * size - nb_clusters < nb_departments < nb_clusters * size + nb_clusters
    } by {
        lemma_cluster_size_fits(nb_departments, nb_clusters, i);
        let s = sizes[i] as int;
        assert(c * (q + 1) == c * q + c) by (nonlinear_arith);
        if i < r {
            assert(s == q + 1);
            assert(c * s == c * q + c);
        } else {
            assert(s == q);
            assert(c * s == c * q);
        }
    }
}

/// Deals `nb_departments` departments to `nb_clusters` clusters.
///
/// With no cluster at all the partition is empty.
pub fn cluster_sizes(nb_departments: usize, nb_clusters: usize) -> (sizes: Vec<usize>)
    ensures
        sizes@ == even_partition(nb_departments, nb_clusters),
        nb_clusters >= 1 ==> total(sizes@) == nb_departments,
{
    if nb_clusters == 0 {
        let sizes: Vec<usize> = Vec::new();
        assert(sizes@ =~= even_partition(nb_departments, nb_clusters));
        return sizes;
    }
    let quotient: usize = nb_departments / nb_clusters;
    let remainder: usize = nb_departments % nb_clusters;
    let mut sizes: Vec<usize> = vec![quotient; nb_clusters];
    let mut i: usize = 0;
    while i < remainder
        invariant
            i <= remainder < nb_clusters,
            quotient == nb_departments / nb_clusters,
            remainder == nb_departments % nb_clusters,
            sizes@.len() == nb_clusters,
            forall|k: int| 0 <= k < i ==> #[trigger] sizes@[k] == quotient + 1,
            forall|k: int| i <= k < nb_clusters ==> #[trigger] sizes@[k] == quotient,
        decreases remainder - i,
    {
        proof {
            lemma_cluster_size_fits(nb_departments, nb_clusters, i as int);
        }
        sizes[i] += 1;
        i += 1;
    }
    proof {
        assert forall|k: int| 0 <= k < nb_clusters implies sizes@[k] == even_partition(
            nb_departments,
            nb_clusters,
        )[k] by {
            lemma_cluster_size_fits(nb_departments, nb_clusters, k);
        }
        assert(sizes@ =~= even_partition(nb_departments, nb_clusters));
        lemma_partition_is_even(nb_departments, nb_clusters);
    }
    sizes
}

} // verus!
