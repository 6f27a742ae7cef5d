//! Medoid computation: the member of a cluster that minimizes the summed
//! effective distance to every member, earliest member winning ties.

use crate::oracle::effective_distance;
use crate::oracle::graph_get_distance;
use crate::oracle::DistanceOracle;
use crate::petgraph_api::node_id;
use vstd::prelude::*;

verus! {

/// A growable, order-preserving group of nodes; never reordered, only
/// appended to.
pub type Cluster = Vec<petgraph::graph::NodeIndex>;

/// The node positions a cluster's members stand for, in membership order.
pub open spec fn cview(c: Seq<petgraph::graph::NodeIndex>) -> Seq<usize> {
    c.map_values(|x: petgraph::graph::NodeIndex| node_id(x))
}

/// Summed effective distance from `from` to every member (the member
/// itself included: its own entry contributes 0 when present).
pub open spec fn member_cost(rows: Seq<Seq<Option<i32>>>, members: Seq<usize>, from: usize) -> int
    decreases members.len(),
{
    if members.len() == 0 {
        0
    } else {
        member_cost(rows, members.drop_last(), from) + effective_distance(
            rows,
            from as int,
            members.last() as int,
        )
    }
}

/// Position (into `members`) of the first member whose cost is minimal
/// among the first `t` members.
pub open spec fn best_member_upto(rows: Seq<Seq<Option<i32>>>, members: Seq<usize>, t: int) -> int
    decreases t,
{
    if t <= 1 {
        0
    } else {
        let b = best_member_upto(rows, members, t - 1);
        if member_cost(rows, members, members[t - 1]) < member_cost(rows, members, members[b]) {
            t - 1
        } else {
            b
        }
    }
}

/// Position of the cluster's medoid: the first member of minimal cost.
pub open spec fn medoid_index(rows: Seq<Seq<Option<i32>>>, members: Seq<usize>) -> int {
    best_member_upto(rows, members, members.len() as int)
}

/// `mi` points at a member of minimal summed cost, and every earlier
/// member costs strictly more.
pub open spec fn is_first_medoid(
    rows: Seq<Seq<Option<i32>>>,
    members: Seq<usize>,
    mi: int,
) -> bool {
    &&& 0 <= mi < members.len()
    &&& forall|i: int|
        0 <= i < members.len() ==> member_cost(rows, members, members[mi]) <= member_cost(
            rows,
            members,
            #[trigger] members[i],
        )
    &&& forall|i: int|
        0 <= i < mi ==> member_cost(rows, members, #[trigger] members[i]) > member_cost(
            rows,
            members,
            members[mi],
        )
}

proof fn lemma_best_member_upto(rows: Seq<Seq<Option<i32>>>, members: Seq<usize>, t: int)
    requires
        1 <= t <= members.len(),
    ensures
        0 <= best_member_upto(rows, members, t) < t,
        forall|i: int|
            0 <= i < t ==> member_cost(
                rows,
                members,
                members[best_member_upto(rows, members, t)],
            ) <= member_cost(rows, members, #[trigger] members[i]),
        forall|i: int|
            0 <= i < best_member_upto(rows, members, t) ==> member_cost(
                rows,
                members,
                #[trigger] members[i],
            ) > member_cost(rows, members, members[best_member_upto(rows, members, t)]),
    decreases t,
{
    if t > 1 {
        lemma_best_member_upto(rows, members, t - 1);
    }
}

/// The medoid the algorithm picks is a member of minimal summed cost, and
/// the first such member in membership order.
pub proof fn lemma_medoid_minimal(rows: Seq<Seq<Option<i32>>>, members: Seq<usize>)
    requires
        members.len() >= 1,
    ensures
        is_first_medoid(rows, members, medoid_index(rows, members)),
{
    lemma_best_member_upto(rows, members, members.len() as int);
}

/// Summed effective distance from the node `from` points at to every
/// member of the cluster.
fn member_cost_exec(oracle: &DistanceOracle, cluster: &Cluster, from: &petgraph::graph::NodeIndex)
    -> (c: i64)
    requires
        oracle.wf(),
        cluster@.len() <= 0x8000_0000,
    ensures
        c == member_cost(oracle@, cview(cluster@), node_id(*from)),
        0 <= c,
{
    let mut sum: i64 = 0;
    let mut m: usize = 0;
    let n = cluster.len();
    while m < n
        invariant
            m <= n,
            n == cluster@.len(),
            n <= 0x8000_0000,
            oracle.wf(),
            sum == member_cost(oracle@, cview(cluster@).take(m as int), node_id(*from)),
            0 <= sum <= m * 0x8000_0000,
        decreases n - m,
    {
        let d = graph_get_distance(oracle, from, &cluster[m]);
        proof {
            let rows = oracle@;
            let members = cview(cluster@);
            assert(0 <= effective_distance(rows, node_id(*from) as int, members[m as int] as int)
                < 0x8000_0000);
            assert(members.take(m as int + 1).drop_last() =~= members.take(m as int));
            assert(members.take(m as int + 1).last() == members[m as int]);
        }
        sum = sum + (d as i64);
        m = m + 1;
    }
    proof {
        assert(cview(cluster@).take(n as int) =~= cview(cluster@));
    }
    sum
}

/// The cluster's current medoid: the member whose summed effective
/// distance to all members is least, the earliest such member on a tie.
pub fn graph_get_center(oracle: &DistanceOracle, cluster: &Cluster) -> (center:
    petgraph::graph::NodeIndex)
    requires
        oracle.wf(),
        1 <= cluster@.len() <= 0x8000_0000,
    ensures
        center == cluster@[medoid_index(oracle@, cview(cluster@))],
        is_first_medoid(oracle@, cview(cluster@), medoid_index(oracle@, cview(cluster@))),
{
    let n = cluster.len();
    let mut center: petgraph::graph::NodeIndex = cluster[0];
    let mut best: i64 = member_cost_exec(oracle, cluster, &center);
    let mut m: usize = 1;
    while m < n
        invariant
            1 <= m <= n,
            n == cluster@.len(),
            n <= 0x8000_0000,
            oracle.wf(),
            center == cluster@[best_member_upto(oracle@, cview(cluster@), m as int)],
            best == member_cost(
                oracle@,
                cview(cluster@),
                cview(cluster@)[best_member_upto(oracle@, cview(cluster@), m as int)],
            ),
        decreases n - m,
    {
        let c = member_cost_exec(oracle, cluster, &cluster[m]);
        if c < best {
            center = cluster[m];
            best = c;
        }
        m = m + 1;
    }
    proof {
        lemma_medoid_minimal(oracle@, cview(cluster@));
    }
    center
}

} // verus!
