//! The medoid-assignment clusterer: seed `k` clusters with the first `k`
//! nodes of a random permutation, then hand every remaining node, in
//! permutation order, to the cluster whose current medoid lies nearest
//! (first cluster wins ties). A node's cluster is final once chosen.

use crate::medoid::cview;
use crate::medoid::graph_get_center;
use crate::medoid::medoid_index;
use crate::medoid::Cluster;
use crate::oracle::all_pairs_distances;
use crate::oracle::effective_distance;
use crate::oracle::graph_get_distance;
use crate::oracle::oracle_rows;
use crate::petgraph_api::graph_edges;
use crate::petgraph_api::graph_node_count;
use crate::petgraph_api::graph_node_indices;
use crate::petgraph_api::graph_nodes;
use crate::petgraph_api::node_id;
use crate::rand_api::shuffle_nodes;
use vstd::prelude::*;

verus! {

/// The one failure the clusterer reports: more clusters asked for than
/// the graph has nodes.
#[derive(Debug, PartialEq, Eq, Structural)]
pub enum ClusterError {
    InsufficientNodes,
}

/// The node positions each cluster holds, in membership order.
pub open spec fn csviews(cs: Seq<Cluster>) -> Seq<Seq<usize>> {
    cs.map_values(|c: Cluster| cview(c@))
}

/// `p` rearranges the node positions `0..n`: each appears exactly once.
pub open spec fn is_permutation_of(p: Seq<usize>, n: nat) -> bool {
    &&& p.len() == n
    &&& p.no_duplicates()
    &&& forall|i: int| 0 <= i < p.len() ==> (#[trigger] p[i]) < n
    &&& forall|j: usize| j < n ==> p.contains(j)
}

/// The initial clusters: one singleton per seed, in permutation order.
pub open spec fn seed_clusters(p: Seq<usize>, k: int) -> Seq<Seq<usize>> {
    Seq::new(k as nat, |i: int| seq![p[i]])
}

/// A node's distance to a cluster: the effective distance to its medoid.
pub open spec fn cluster_distance(rows: Seq<Seq<Option<i32>>>, members: Seq<usize>, v: usize) -> int {
    effective_distance(rows, v as int, members[medoid_index(rows, members)] as int)
}

/// Index of the first cluster, among the first `t`, whose medoid lies
/// nearest to `v`.
pub open spec fn best_cluster_upto(
    rows: Seq<Seq<Option<i32>>>,
    cs: Seq<Seq<usize>>,
    v: usize,
    t: int,
) -> int
    decreases t,
{
    if t <= 1 {
        0
    } else {
        let b = best_cluster_upto(rows, cs, v, t - 1);
        if cluster_distance(rows, cs[t - 1], v) < cluster_distance(rows, cs[b], v) {
            t - 1
        } else {
            b
        }
    }
}

/// The cluster `v` is assigned to: nearest medoid, earliest on a tie.
pub open spec fn chosen_cluster(rows: Seq<Seq<Option<i32>>>, cs: Seq<Seq<usize>>, v: usize) -> int {
    best_cluster_upto(rows, cs, v, cs.len() as int)
}

/// One assignment step: `v` appended to its chosen cluster.
pub open spec fn assign_one(rows: Seq<Seq<Option<i32>>>, cs: Seq<Seq<usize>>, v: usize) -> Seq<
    Seq<usize>,
> {
    let j = chosen_cluster(rows, cs, v);
    cs.update(j, cs[j].push(v))
}

/// The clusters after the first `i` permuted nodes are placed: the first
/// `k` as seeds, the rest each assigned in turn.
pub open spec fn assign_upto(
    rows: Seq<Seq<Option<i32>>>,
    p: Seq<usize>,
    k: int,
    i: int,
) -> Seq<Seq<usize>>
    decreases i,
{
    if i <= k || i <= 0 {
        seed_clusters(p, k)
    } else {
        assign_one(rows, assign_upto(rows, p, k, i - 1), p[i - 1])
    }
}

/// What one clustering run over permutation `p` produces.
pub open spec fn spec_clustering(
    rows: Seq<Seq<Option<i32>>>,
    p: Seq<usize>,
    k: int,
) -> Seq<Seq<usize>> {
    if k == 0 {
        Seq::empty()
    } else {
        assign_upto(rows, p, k, p.len() as int)
    }
}

proof fn lemma_identity_is_permutation(n: nat)
    requires
        n <= 0x8000_0000,
    ensures
        is_permutation_of(Seq::new(n, |i: int| i as usize), n),
{
    let p = Seq::new(n, |i: int| i as usize);
    assert forall|i: int, j: int| 0 <= i < p.len() && 0 <= j < p.len() && i != j implies p[i]
        != p[j] by {
        assert(p[i] == i as usize && p[j] == j as usize);
    }
    assert forall|j: usize| j < n implies p.contains(j) by {
        assert(p[j as int] == j);
    }
}

/// Partition completeness: with `1 <= k <= n` (or both zero) and any
/// permutation of `0..n`, the clusters the run produces are exactly `k`,
/// their sizes sum to `n`, and every node position below `n` stands in
/// exactly one cluster, exactly once.
pub proof fn lemma_partition_completeness(
    rows: Seq<Seq<Option<i32>>>,
    p: Seq<usize>,
    k: int,
    n: nat,
)
    requires
        is_permutation_of(p, n),
        0 <= k <= n,
        k >= 1 || n == 0,
    ensures
        spec_clustering(rows, p, k).len() == k,
        flat_sizes(spec_clustering(rows, p, k)) == n,
        forall|v: usize| v < n ==> flatten_count(spec_clustering(rows, p, k), v) == 1,
        forall|v: usize| !(v < n) ==> flatten_count(spec_clustering(rows, p, k), v) == 0,
{
    if k == 0 {
        assert(spec_clustering(rows, p, k) =~= Seq::<Seq<usize>>::empty());
    } else {
        lemma_assign_upto_partition(rows, p, k, n as int);
        assert(p.take(n as int) =~= p);
        assert forall|v: usize| v < n implies flatten_count(spec_clustering(rows, p, k), v)
            == 1 by {
            lemma_take_count_all(p, v);
        }
        assert forall|v: usize| !(v < n) implies flatten_count(spec_clustering(rows, p, k), v)
            == 0 by {
            lemma_take_count_all(p, v);
        }
    }
}

/// How often `v` occurs across all clusters.
pub open spec fn flatten_count(cs: Seq<Seq<usize>>, v: usize) -> int
    decreases cs.len(),
{
    if cs.len() == 0 {
        0
    } else {
        flatten_count(cs.drop_last(), v) + cs.last().to_multiset().count(v)
    }
}

/// Total number of members across all clusters.
pub open spec fn flat_sizes(cs: Seq<Seq<usize>>) -> int
    decreases cs.len(),
{
    if cs.len() == 0 {
        0
    } else {
        flat_sizes(cs.drop_last()) + cs.last().len()
    }
}

proof fn lemma_take_count_all(p: Seq<usize>, v: usize)
    requires
        p.no_duplicates(),
    ensures
        p.contains(v) ==> p.to_multiset().count(v) == 1,
        !p.contains(v) ==> p.to_multiset().count(v) == 0,
{
    broadcast use vstd::seq_lib::group_to_multiset_ensures;
    broadcast use vstd::multiset::group_multiset_axioms;

    p.lemma_multiset_has_no_duplicates();
    if p.contains(v) {
        assert(p.to_multiset().count(v) > 0);
        assert(p.to_multiset().contains(v));
    } else {
        if p.to_multiset().count(v) > 0 {
            assert(p.contains(v));
        }
    }
}

proof fn lemma_push_count(s: Seq<usize>, x: usize)
    ensures
        forall|w: usize| #[trigger]
            s.push(x).to_multiset().count(w) == s.to_multiset().count(w) + (
            if w == x {
                1int
            } else {
                0int
            }),
{
    broadcast use vstd::seq_lib::group_to_multiset_ensures;
    broadcast use vstd::multiset::group_multiset_axioms;

    assert(s.push(x).to_multiset() =~= s.to_multiset().insert(x));
    assert forall|w: usize|
        s.push(x).to_multiset().count(w) == s.to_multiset().count(w) + (
        if w == x {
            1int
        } else {
            0int
        }) by {
        if w == x {
            vstd::multiset::lemma_insert_increases_count_by_1(s.to_multiset(), x);
        } else {
            vstd::multiset::lemma_insert_other_elements_unchanged(s.to_multiset(), x, w);
        }
    }
}

proof fn lemma_flatten_count_update_push(cs: Seq<Seq<usize>>, j: int, v: usize)
    requires
        0 <= j < cs.len(),
    ensures
        forall|w: usize|
            flatten_count(cs.update(j, cs[j].push(v)), w) == flatten_count(cs, w) + (
            if w == v {
                1int
            } else {
                0int
            }),
        flat_sizes(cs.update(j, cs[j].push(v))) == flat_sizes(cs) + 1,
    decreases cs.len(),
{
    broadcast use vstd::seq_lib::group_to_multiset_ensures;
    broadcast use vstd::multiset::group_multiset_axioms;

    let cs2 = cs.update(j, cs[j].push(v));
    if j == cs.len() - 1 {
        assert(cs2.drop_last() =~= cs.drop_last());
        assert(cs2.last() == cs.last().push(v));
        lemma_push_count(cs.last(), v);
        assert forall|w: usize|
            flatten_count(cs2, w) == flatten_count(cs, w) + (
            if w == v {
                1int
            } else {
                0int
            }) by {
            assert(flatten_count(cs2, w) == flatten_count(cs2.drop_last(), w)
                + cs2.last().to_multiset().count(w));
            assert(flatten_count(cs, w) == flatten_count(cs.drop_last(), w)
                + cs.last().to_multiset().count(w));
            assert(cs.last().push(v).to_multiset().count(w) == cs.last().to_multiset().count(w) + (
            if w == v {
                1int
            } else {
                0int
            }));
        }
        assert(flat_sizes(cs2) == flat_sizes(cs) + 1);
    } else {
        let inner = cs.drop_last().update(j, cs.drop_last()[j].push(v));
        assert(cs2.drop_last() =~= inner);
        assert(cs2.last() == cs.last());
        lemma_flatten_count_update_push(cs.drop_last(), j, v);
        assert forall|w: usize|
            flatten_count(cs2, w) == flatten_count(cs, w) + (
            if w == v {
                1int
            } else {
                0int
            }) by {
            assert(flatten_count(cs2, w) == flatten_count(inner, w)
                + cs2.last().to_multiset().count(w));
            assert(flatten_count(inner, w) == flatten_count(cs.drop_last(), w) + (
            if w == v {
                1int
            } else {
                0int
            }));
        }
        assert(flat_sizes(cs2) == flat_sizes(cs) + 1);
    }
}

proof fn lemma_seed_partition(p: Seq<usize>, k: int, n: nat)
    requires
        is_permutation_of(p, n),
        0 <= k <= n,
    ensures
        forall|w: usize|
            flatten_count(seed_clusters(p, k), w) == p.take(k).to_multiset().count(w),
        flat_sizes(seed_clusters(p, k)) == k,
    decreases k,
{
    broadcast use vstd::seq_lib::group_to_multiset_ensures;
    broadcast use vstd::multiset::group_multiset_axioms;

    if k == 0 {
        assert(seed_clusters(p, 0) =~= Seq::<Seq<usize>>::empty());
        assert(p.take(0) =~= Seq::<usize>::empty());
        assert forall|w: usize| p.take(0).to_multiset().count(w) == 0 by {
            if p.take(0).to_multiset().count(w) > 0 {
                assert(p.take(0).contains(w));
            }
        }
    } else {
        lemma_seed_partition(p, k - 1, n);
        let sk = seed_clusters(p, k);
        assert(sk.drop_last() =~= seed_clusters(p, k - 1));
        assert(sk.last() =~= seq![p[k - 1]]);
        assert(p.take(k).drop_last() =~= p.take(k - 1));
        assert(p.take(k).last() == p[k - 1]);
        lemma_push_count(p.take(k - 1), p[k - 1]);
        lemma_push_count(Seq::<usize>::empty(), p[k - 1]);
        assert forall|w: usize|
            flatten_count(sk, w) == p.take(k).to_multiset().count(w) by {
            assert(p.take(k) =~= p.take(k - 1).push(p[k - 1]));
            assert(seq![p[k - 1]] =~= Seq::<usize>::empty().push(p[k - 1]));
            assert(flatten_count(sk, w) == flatten_count(sk.drop_last(), w)
                + sk.last().to_multiset().count(w));
            if Seq::<usize>::empty().to_multiset().count(w) > 0 {
                assert(Seq::<usize>::empty().contains(w));
            }
            assert(Seq::<usize>::empty().push(p[k - 1]).to_multiset().count(w)
                == Seq::<usize>::empty().to_multiset().count(w) + (
            if w == p[k - 1] {
                1int
            } else {
                0int
            }));
            assert(p.take(k).to_multiset().count(w) == p.take(k - 1).to_multiset().count(w) + (
            if w == p[k - 1] {
                1int
            } else {
                0int
            }));
        }
    }
}

proof fn lemma_assign_upto_partition(rows: Seq<Seq<Option<i32>>>, p: Seq<usize>, k: int, i: int)
    requires
        p.no_duplicates(),
        1 <= k <= i <= p.len(),
        is_permutation_of(p, p.len()),
    ensures
        assign_upto(rows, p, k, i).len() == k,
        forall|w: usize|
            flatten_count(assign_upto(rows, p, k, i), w) == p.take(i).to_multiset().count(w),
        flat_sizes(assign_upto(rows, p, k, i)) == i,
    decreases i,
{
    broadcast use vstd::seq_lib::group_to_multiset_ensures;
    broadcast use vstd::multiset::group_multiset_axioms;

    if i == k {
        lemma_seed_partition(p, k, p.len());
    } else {
        lemma_assign_upto_partition(rows, p, k, i - 1);
        let cs = assign_upto(rows, p, k, i - 1);
        let v = p[i - 1];
        let j = chosen_cluster(rows, cs, v);
        lemma_best_cluster_upto_range(rows, cs, v, cs.len() as int);
        lemma_flatten_count_update_push(cs, j, v);
        assert(p.take(i).drop_last() =~= p.take(i - 1));
        assert(p.take(i) =~= p.take(i - 1).push(v));
        assert(p.take(i).to_multiset() =~= p.take(i - 1).to_multiset().insert(v));
    }
}

proof fn lemma_shuffled_is_permutation(
    orig: Seq<petgraph::graph::NodeIndex>,
    now: Seq<petgraph::graph::NodeIndex>,
)
    requires
        forall|i: int| 0 <= i < orig.len() ==> node_id(#[trigger] orig[i]) == i,
        now.to_multiset() == orig.to_multiset(),
        now.len() == orig.len(),
    ensures
        is_permutation_of(cview(now), orig.len()),
{
    broadcast use vstd::seq_lib::group_to_multiset_ensures;
    broadcast use vstd::multiset::group_multiset_axioms;

    let n = orig.len();
    let p = cview(now);
    assert(p.len() == n);
    assert(orig.no_duplicates()) by {
        assert forall|a: int, b: int|
            0 <= a < n && 0 <= b < n && a != b implies orig[a] != orig[b] by {
            assert(node_id(orig[a]) == a && node_id(orig[b]) == b);
        }
    }
    orig.lemma_multiset_has_no_duplicates();
    now.lemma_multiset_has_no_duplicates_conv();
    assert forall|i: int| 0 <= i < n implies (#[trigger] p[i]) < n && node_id(now[i]) < n by {
        assert(now.contains(now[i]));
        assert(now.to_multiset().count(now[i]) > 0);
        assert(orig.to_multiset().count(now[i]) > 0);
        assert(orig.contains(now[i]));
        let w = choose|w: int| 0 <= w < n && orig[w] == now[i];
        assert(node_id(now[i]) == w);
        assert(p[i] == node_id(now[i]));
    }
    assert forall|a: int, b: int| 0 <= a < n && 0 <= b < n && a != b implies p[a] != p[b] by {
        if p[a] == p[b] {
            assert(now.contains(now[a]) && now.contains(now[b]));
            assert(now.to_multiset().count(now[a]) > 0 && now.to_multiset().count(now[b]) > 0);
            assert(orig.to_multiset().count(now[a]) > 0 && orig.to_multiset().count(now[b]) > 0);
            assert(orig.contains(now[a]) && orig.contains(now[b]));
            let wa = choose|w: int| 0 <= w < n && orig[w] == now[a];
            let wb = choose|w: int| 0 <= w < n && orig[w] == now[b];
            assert(node_id(now[a]) == wa && node_id(now[b]) == wb);
            assert(p[a] == node_id(now[a]) && p[b] == node_id(now[b]));
            assert(wa == wb);
            assert(now[a] == now[b]);
            assert(false);
        }
    }
    assert forall|j: usize| j < n implies p.contains(j) by {
        assert(node_id(orig[j as int]) == j);
        assert(orig.contains(orig[j as int]));
        assert(orig.to_multiset().count(orig[j as int]) > 0);
        assert(now.to_multiset().count(orig[j as int]) > 0);
        assert(now.contains(orig[j as int]));
        let w = choose|w: int| 0 <= w < n && now[w] == orig[j as int];
        assert(p[w] == node_id(orig[j as int]));
        assert(p[w] == j);
    }
}

/// Partitions the graph's nodes into `k` clusters. A uniformly random
/// permutation of the nodes seeds `k` singleton clusters with its first
/// `k` entries; every further node, in permutation order, joins the
/// cluster whose freshly recomputed medoid lies nearest under effective
/// distance, the earliest cluster winning ties. With `k` above the node
/// count nothing is clustered and `InsufficientNodes` comes back; `k == 0`
/// yields no clusters at all.
pub fn cluster_graph_k_mean(
    graph: &petgraph::graph::Graph<u64, (), petgraph::Undirected>,
    k: usize,
) -> (r: Result<Vec<Cluster>, ClusterError>)
    requires
        graph_nodes(*graph).len() < 0x8000_0000,
    ensures
        match r {
            Ok(cs) => {
                &&& k <= graph_nodes(*graph).len()
                &&& cs@.len() == (if k == 0 {
                    0int
                } else {
                    k as int
                })
                &&& exists|p: Seq<usize>|
                    is_permutation_of(p, graph_nodes(*graph).len()) && csviews(cs@)
                        == spec_clustering(
                        oracle_rows(graph_edges(*graph), graph_nodes(*graph).len()),
                        p,
                        k as int,
                    )
            },
            Err(e) => {
                &&& e == ClusterError::InsufficientNodes
                &&& k > graph_nodes(*graph).len()
            },
        },
{
    let n = graph_node_count(graph);
    let ghost gn = graph_nodes(*graph).len();
    let ghost grows = oracle_rows(graph_edges(*graph), gn);
    if k > n {
        return Err(ClusterError::InsufficientNodes);
    }
    if k == 0 {
        let empty: Vec<Cluster> = Vec::new();
        proof {
            let pid = Seq::new(gn, |i: int| i as usize);
            lemma_identity_is_permutation(gn);
            assert(csviews(empty@) =~= Seq::<Seq<usize>>::empty());
            assert(csviews(empty@) == spec_clustering(grows, pid, 0));
        }
        return Ok(empty);
    }
    let mut nodes = graph_node_indices(graph);
    let ghost orig = nodes@;
    shuffle_nodes(&mut nodes);
    let ghost perm = cview(nodes@);
    proof {
        lemma_shuffled_is_permutation(orig, nodes@);
        assert(is_permutation_of(perm, gn));
    }
    let oracle = all_pairs_distances(graph);
    let ghost rows = oracle@;

    let mut clusters: Vec<Cluster> = Vec::new();
    let mut i: usize = 0;
    while i < k
        invariant
            i <= k,
            1 <= k <= n,
            n == gn,
            nodes@.len() == n,
            perm == cview(nodes@),
            clusters@.len() == i,
            forall|t: int| 0 <= t < i ==> (#[trigger] clusters@[t])@ =~= seq![nodes@[t]],
        decreases k - i,
    {
        let mut c: Cluster = Vec::new();
        c.push(nodes[i]);
        clusters.push(c);
        i = i + 1;
    }
    proof {
        assert forall|t: int| 0 <= t < k implies csviews(clusters@)[t] == seed_clusters(
            perm,
            k as int,
        )[t] by {
            assert(cview(clusters@[t]@) =~= seq![perm[t]]);
        }
        assert(csviews(clusters@) =~= seed_clusters(perm, k as int));
        assert(csviews(clusters@) == assign_upto(rows, perm, k as int, k as int));
    }
    let mut ni: usize = k;
    while ni < n
        invariant
            k <= ni <= n,
            1 <= k,
            n == gn,
            gn < 0x8000_0000,
            nodes@.len() == n,
            perm == cview(nodes@),
            oracle.wf(),
            oracle@ == rows,
            clusters@.len() == k,
            forall|t: int| 0 <= t < k ==> 1 <= (#[trigger] clusters@[t])@.len() <= 1 + ni - k,
            csviews(clusters@) == assign_upto(rows, perm, k as int, ni as int),
        decreases n - ni,
    {
        let node = nodes[ni];
        let ghost v = perm[ni as int];
        let ghost csv = csviews(clusters@);
        proof {
            assert(v == node_id(node));
            assert(csv.len() == k);
            assert(csv[0] == cview(clusters@[0]@));
        }
        let center0 = graph_get_center(&oracle, &clusters[0]);
        let mut best_d = graph_get_distance(&oracle, &node, &center0);
        let mut best_i: usize = 0;
        proof {
            assert(node_id(center0) == csv[0][medoid_index(rows, csv[0])]);
            assert(best_d == cluster_distance(rows, csv[0], v));
            assert(best_cluster_upto(rows, csv, v, 1) == 0);
        }
        let mut ci: usize = 1;
        while ci < k
            invariant
                1 <= ci <= k,
                k == clusters@.len(),
                oracle.wf(),
                oracle@ == rows,
                gn < 0x8000_0000,
                k <= ni < n,
                n == gn,
                csv == csviews(clusters@),
                forall|t: int| 0 <= t < k ==> 1 <= (#[trigger] clusters@[t])@.len() <= 1 + ni - k,
                v == node_id(node),
                best_i as int == best_cluster_upto(rows, csv, v, ci as int),
                best_i < ci,
                best_d == cluster_distance(rows, csv[best_i as int], v),
            decreases k - ci,
        {
            proof {
                assert(csv[ci as int] == cview(clusters@[ci as int]@));
            }
            let center = graph_get_center(&oracle, &clusters[ci]);
            let d = graph_get_distance(&oracle, &node, &center);
            proof {
                assert(node_id(center) == csv[ci as int][medoid_index(rows, csv[ci as int])]);
                assert(d == cluster_distance(rows, csv[ci as int], v));
            }
            if d < best_d {
                best_i = ci;
                best_d = d;
            }
            ci = ci + 1;
        }
        proof {
            assert(best_i as int == chosen_cluster(rows, csv, v));
        }
        let ghost before = clusters@;
        let mut chosen = clusters.remove(best_i);
        chosen.push(node);
        clusters.insert(best_i, chosen);
        proof {
            assert(clusters@.len() == k);
            assert(clusters@[best_i as int]@ =~= before[best_i as int]@.push(node));
            assert forall|t: int| 0 <= t < k && t != best_i as int implies clusters@[t]
                == before[t] by {
                if t < best_i as int {
                    assert(before.remove(best_i as int)[t] == before[t]);
                } else {
                    assert(before.remove(best_i as int)[t - 1] == before[t]);
                }
            }
            assert forall|t: int| 0 <= t < k implies csviews(clusters@)[t] == assign_one(
                rows,
                csv,
                v,
            )[t] by {
                if t == best_i as int {
                    assert(cview(clusters@[t]@) =~= csv[t].push(v));
                } else {
                    assert(clusters@[t] == before[t]);
                }
            }
            assert(csviews(clusters@) =~= assign_one(rows, csv, v));
            assert(csviews(clusters@) == assign_upto(rows, perm, k as int, ni as int + 1));
        }
        ni = ni + 1;
    }
    proof {
        assert(perm.len() == gn);
        assert(csviews(clusters@) == spec_clustering(grows, perm, k as int));
    }
    Ok(clusters)
}

proof fn lemma_best_cluster_upto_range(
    rows: Seq<Seq<Option<i32>>>,
    cs: Seq<Seq<usize>>,
    v: usize,
    t: int,
)
    requires
        t >= 1,
    ensures
        0 <= best_cluster_upto(rows, cs, v, t) < t,
    decreases t,
{
    if t > 1 {
        lemma_best_cluster_upto_range(rows, cs, v, t - 1);
    }
}

} // verus!
