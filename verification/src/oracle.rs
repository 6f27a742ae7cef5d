//! The distance oracle: per-node shortest-path hop counts over the whole
//! graph, looked up through a total distance function with a sentinel for
//! unknown or unreachable pairs.

use crate::petgraph_api::dijkstra_distances;
use crate::petgraph_api::dijkstra_of;
use crate::petgraph_api::graph_edges;
use crate::petgraph_api::graph_node_indices;
use crate::petgraph_api::graph_nodes;
use crate::petgraph_api::node_id;
use crate::petgraph_api::node_index_of;
use vstd::prelude::*;

verus! {

/// Stands in for the distance between a pair with no known path; larger
/// than any hop count plausible at the intended graph sizes.
pub const MAX_DISTANCE: i32 = 100;

/// All-pairs distance table: row `a` holds, for each node `b`, the hop
/// count from `a` to `b`, or `None` where `b` is unreachable from `a`.
pub struct DistanceOracle {
    rows: Vec<Vec<Option<i32>>>,
}

/// The distance the clustering algorithm uses between `a` and `b`: the
/// entry of `a`'s row at `b` where one is known, the sentinel otherwise.
pub open spec fn effective_distance(rows: Seq<Seq<Option<i32>>>, a: int, b: int) -> int {
    if 0 <= a < rows.len() && 0 <= b < rows[a].len() && rows[a][b] is Some {
        rows[a][b]->0 as int
    } else {
        MAX_DISTANCE as int
    }
}

impl DistanceOracle {
    /// The table a `DistanceOracle` holds, row by row.
    pub closed spec fn view(self) -> Seq<Seq<Option<i32>>> {
        self.rows@.map_values(|r: Vec<Option<i32>>| r@)
    }

    /// A well-formed table is square and holds no negative hop count.
    pub open spec fn wf(self) -> bool {
        &&& forall|i: int| 0 <= i < self@.len() ==> (#[trigger] self@[i]).len() == self@.len()
        &&& forall|i: int, j: int|
            0 <= i < self@.len() && 0 <= j < self@[i].len() && self@[i][j] is Some ==> 0 <= (
            #[trigger] self@[i][j])->0
    }

    /// How many nodes the table covers.
    pub open spec fn spec_node_count(self) -> nat {
        self@.len()
    }

    /// Effective distance between two node positions.
    pub fn distance_idx(&self, a: usize, b: usize) -> (r: i32)
        ensures
            r == effective_distance(self@, a as int, b as int),
    {
        if a < self.rows.len() {
            let row = &self.rows[a];
            if b < row.len() {
                match row[b] {
                    Some(d) => d,
                    None => MAX_DISTANCE,
                }
            } else {
                MAX_DISTANCE
            }
        } else {
            MAX_DISTANCE
        }
    }
}

/// Effective distance from node `a` to node `b`: the hop count recorded in
/// `a`'s distance row, or the sentinel where `a` has no row or `b` is
/// absent from it.
pub fn graph_get_distance(
    oracle: &DistanceOracle,
    a: &petgraph::graph::NodeIndex,
    b: &petgraph::graph::NodeIndex,
) -> (r: i32)
    ensures
        r == effective_distance(oracle@, node_id(*a) as int, node_id(*b) as int),
{
    let ai = node_index_of(a);
    let bi = node_index_of(b);
    oracle.distance_idx(ai, bi)
}

/// The distance row of source position `i` in a graph of `n` nodes: the
/// search result made dense, one slot per node.
pub open spec fn oracle_row(edges: Seq<(usize, usize)>, n: nat, i: usize) -> Seq<Option<i32>> {
    Seq::new(
        n,
        |j: int|
            if dijkstra_of(edges, i).dom().contains(j as usize) {
                Some(dijkstra_of(edges, i)[j as usize])
            } else {
                None
            },
    )
}

/// The whole table: one distance row per node.
pub open spec fn oracle_rows(edges: Seq<(usize, usize)>, n: nat) -> Seq<Seq<Option<i32>>> {
    Seq::new(n, |i: int| oracle_row(edges, n, i as usize))
}

/// Turns one search result into a dense distance row of length `n`.
fn dense_row(pairs: &Vec<(usize, i32)>, n: usize) -> (r: Vec<Option<i32>>)
    requires
        forall|p: int, q: int|
            0 <= p < q < pairs@.len() ==> (#[trigger] pairs@[p]).0 != (#[trigger] pairs@[q]).0,
        forall|t: (usize, i32)| pairs@.contains(t) ==> t.0 < n,
    ensures
        r@.len() == n,
        forall|j: int| 0 <= j < n && (#[trigger] r@[j]) is Some ==> pairs@.contains(
            (j as usize, r@[j]->0),
        ),
        forall|t: (usize, i32)| pairs@.contains(t) ==> r@[t.0 as int] == Some(t.1),
{
    let mut r: Vec<Option<i32>> = Vec::new();
    let mut t: usize = 0;
    while t < n
        invariant
            t <= n,
            r@.len() == t,
            forall|j: int| 0 <= j < t ==> (#[trigger] r@[j]) is None,
        decreases n - t,
    {
        r.push(None);
        t = t + 1;
    }
    let mut p: usize = 0;
    while p < pairs.len()
        invariant
            p <= pairs@.len(),
            r@.len() == n,
            forall|pp: int, q: int|
                0 <= pp < q < pairs@.len() ==> (#[trigger] pairs@[pp]).0 != (#[trigger] pairs@[q]).0,
            forall|t2: (usize, i32)| pairs@.contains(t2) ==> t2.0 < n,
            forall|j: int|
                0 <= j < n && (#[trigger] r@[j]) is Some ==> pairs@.take(p as int).contains(
                    (j as usize, r@[j]->0),
                ),
            forall|q: int| 0 <= q < p ==> r@[(#[trigger] pairs@[q]).0 as int] == Some(pairs@[q].1),
        decreases pairs@.len() - p,
    {
        let (j, d) = pairs[p];
        let ghost old_r = r@;
        assert(pairs@.contains(pairs@[p as int]));
        r[j] = Some(d);
        proof {
            assert forall|j2: int| 0 <= j2 < n && (#[trigger] r@[j2]) is Some implies pairs@.take(
                p as int + 1,
            ).contains((j2 as usize, r@[j2]->0)) by {
                let taken = pairs@.take(p as int + 1);
                if j2 == j as int {
                    assert(taken[p as int] == (j2 as usize, d));
                    assert(taken.contains((j2 as usize, d)));
                } else {
                    assert(old_r[j2] == r@[j2]);
                    let q = choose|q: int|
                        0 <= q < p && pairs@.take(p as int)[q] == (j2 as usize, old_r[j2]->0);
                    assert(taken[q] == (j2 as usize, r@[j2]->0));
                    assert(taken.contains((j2 as usize, r@[j2]->0)));
                }
            }
            assert forall|q: int| 0 <= q < p + 1 implies r@[(#[trigger] pairs@[q]).0 as int]
                == Some(pairs@[q].1) by {
                if q < p {
                    assert(pairs@.contains(pairs@[q]));
                    assert(pairs@[q].0 < n);
                    assert(old_r[pairs@[q].0 as int] == Some(pairs@[q].1));
                    assert(pairs@[q].0 != pairs@[p as int].0);
                } else {
                    assert(pairs@[q].0 == j && pairs@[q].1 == d);
                }
            }
        }
        p = p + 1;
    }
    proof {
        assert forall|t2: (usize, i32)| pairs@.contains(t2) implies r@[t2.0 as int] == Some(
            t2.1,
        ) by {
            let q = choose|q: int| 0 <= q < pairs@.len() && pairs@[q] == t2;
            assert(r@[pairs@[q].0 as int] == Some(pairs@[q].1));
        }
        assert forall|j: int| 0 <= j < n && (#[trigger] r@[j]) is Some implies pairs@.contains(
            (j as usize, r@[j]->0),
        ) by {
            assert(pairs@.take(pairs@.len() as int) =~= pairs@);
        }
    }
    r
}

/// Runs the shortest-path search from every node up front and collects the
/// distance rows into one oracle for the whole graph.
pub fn all_pairs_distances(g: &petgraph::graph::Graph<u64, (), petgraph::Undirected>) -> (r:
    DistanceOracle)
    requires
        graph_nodes(*g).len() < 0x8000_0000,
    ensures
        r@ == oracle_rows(graph_edges(*g), graph_nodes(*g).len()),
        r.wf(),
        r.spec_node_count() == graph_nodes(*g).len(),
{
    let idxs = graph_node_indices(g);
    let n = idxs.len();
    let mut rows: Vec<Vec<Option<i32>>> = Vec::new();
    let mut i: usize = 0;
    while i < n
        invariant
            i <= n,
            n == graph_nodes(*g).len(),
            graph_nodes(*g).len() < 0x8000_0000,
            idxs@.len() == n,
            forall|t: int| 0 <= t < n ==> node_id(#[trigger] idxs@[t]) == t,
            rows@.len() == i,
            forall|t: int|
                0 <= t < i ==> (#[trigger] rows@[t])@ =~= oracle_row(
                    graph_edges(*g),
                    n as nat,
                    t as usize,
                ),
            forall|t: int, j: int|
                0 <= t < i && 0 <= j < n && (#[trigger] rows@[t]@[j]) is Some ==> 0
                    <= rows@[t]@[j]->0,
        decreases n - i,
    {
        let pairs = dijkstra_distances(g, &idxs[i]);
        let row = dense_row(&pairs, n);
        proof {
            let edges = graph_edges(*g);
            let m = dijkstra_of(edges, i);
            assert forall|j: int| 0 <= j < n implies row@[j] == oracle_row(edges, n as nat, i)[j]
                && (row@[j] is Some ==> 0 <= row@[j]->0) by {
                if m.dom().contains(j as usize) {
                    assert(m.contains_pair(j as usize, m[j as usize]));
                    assert(pairs@.contains((j as usize, m[j as usize])));
                    assert(row@[j] == Some(m[j as usize]));
                }
                if row@[j] is Some {
                    let d = row@[j]->0;
                    assert(pairs@.contains((j as usize, d)));
                    assert(m.contains_pair(j as usize, d));
                    assert(m.dom().contains(j as usize));
                }
            }
            assert(row@ =~= oracle_row(edges, n as nat, i as usize));
        }
        rows.push(row);
        i = i + 1;
    }
    let oracle = DistanceOracle { rows };
    proof {
        assert(oracle@ =~= oracle_rows(graph_edges(*g), n as nat));
    }
    oracle
}

/// A node absent from the source's distance row resolves to the sentinel,
/// never to a computed hop count.
pub proof fn lemma_sentinel_when_absent(rows: Seq<Seq<Option<i32>>>, a: int, b: int)
    requires
        0 <= a < rows.len(),
        0 <= b < rows[a].len(),
        rows[a][b] is None,
    ensures
        effective_distance(rows, a, b) == MAX_DISTANCE as int,
{
}

} // verus!
