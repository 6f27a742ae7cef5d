//! The graph builder: turns a list of entity-id pairs into an undirected
//! graph with one node per distinct id (first-seen order) and one edge per
//! pair (multiplicity kept, self-loops allowed).

use crate::petgraph_api::graph_add_edge;
use crate::petgraph_api::graph_add_node;
use crate::petgraph_api::graph_edges;
use crate::petgraph_api::graph_new;
use crate::petgraph_api::graph_nodes;
use crate::petgraph_api::node_id;
use crate::petgraph_api::node_index_new;
use vstd::prelude::*;

verus! {

/// The entity ids a pair list mentions, in first-seen order: for each
/// pair, the source and then the target is appended when not seen before.
pub open spec fn registry(es: Seq<(u64, u64)>) -> Seq<u64>
    decreases es.len(),
{
    if es.len() == 0 {
        Seq::empty()
    } else {
        let r = registry(es.drop_last());
        let a = es.last().0;
        let b = es.last().1;
        let r1 = if r.contains(a) {
            r
        } else {
            r.push(a)
        };
        if r1.contains(b) {
            r1
        } else {
            r1.push(b)
        }
    }
}

/// The first position of `id` in `r` (its length when absent).
pub open spec fn position_of(r: Seq<u64>, id: u64) -> int
    decreases r.len(),
{
    if r.len() == 0 {
        0
    } else if r[0] == id {
        0
    } else {
        1 + position_of(r.drop_first(), id)
    }
}

/// The node position an entity id resolves to for a given pair list.
pub open spec fn node_of(es: Seq<(u64, u64)>, id: u64) -> int {
    position_of(registry(es), id)
}

/// Every pair resolved to its endpoints' node positions, in input order.
pub open spec fn resolved_edges(es: Seq<(u64, u64)>) -> Seq<(usize, usize)> {
    Seq::new(es.len(), |i: int| (node_of(es, es[i].0) as usize, node_of(es, es[i].1) as usize))
}

/// The set of entity ids a pair list mentions.
pub open spec fn distinct_ids(es: Seq<(u64, u64)>) -> Set<u64> {
    Set::new(|id: u64| exists|j: int| 0 <= j < es.len() && ((#[trigger] es[j]).0 == id || es[j].1 == id))
}

proof fn lemma_position_of(r: Seq<u64>, id: u64)
    requires
        r.contains(id),
    ensures
        0 <= position_of(r, id) < r.len(),
        r[position_of(r, id)] == id,
        forall|j: int| 0 <= j < position_of(r, id) ==> r[j] != id,
    decreases r.len(),
{
    if r.len() > 0 && r[0] != id {
        assert(r.drop_first().contains(id)) by {
            let w = choose|w: int| 0 <= w < r.len() && r[w] == id;
            assert(r.drop_first()[w - 1] == id);
        }
        lemma_position_of(r.drop_first(), id);
        assert forall|j: int| 0 <= j < position_of(r, id) implies r[j] != id by {
            if j > 0 {
                assert(r.drop_first()[j - 1] == r[j]);
            }
        }
    }
}

proof fn lemma_position_of_push_absent(r: Seq<u64>, id: u64)
    requires
        !r.contains(id),
    ensures
        position_of(r.push(id), id) == r.len(),
    decreases r.len(),
{
    if r.len() == 0 {
        assert(r.push(id)[0] == id);
    } else {
        assert(r[0] != id);
        assert(r.push(id)[0] == r[0]);
        assert(!r.drop_first().contains(id)) by {
            if r.drop_first().contains(id) {
                let w = choose|w: int| 0 <= w < r.drop_first().len() && r.drop_first()[w] == id;
                assert(r[w + 1] == id);
            }
        }
        lemma_position_of_push_absent(r.drop_first(), id);
        assert(r.push(id).drop_first() =~= r.drop_first().push(id));
    }
}

proof fn lemma_position_of_prefix(r1: Seq<u64>, r2: Seq<u64>, id: u64)
    requires
        r1.is_prefix_of(r2),
        r1.contains(id),
    ensures
        r2.contains(id),
        position_of(r2, id) == position_of(r1, id),
    decreases r1.len(),
{
    lemma_position_of(r1, id);
    assert(r2[position_of(r1, id)] == id);
    if r1[0] == id {
        assert(r2[0] == id);
    } else {
        assert(r2[0] == r1[0]);
        assert(r1.drop_first().contains(id)) by {
            let w = choose|w: int| 0 <= w < r1.len() && r1[w] == id;
            assert(r1.drop_first()[w - 1] == id);
        }
        assert(r1.drop_first().is_prefix_of(r2.drop_first())) by {
            assert(r1.drop_first() =~= r2.drop_first().subrange(0, r1.drop_first().len() as int));
        }
        lemma_position_of_prefix(r1.drop_first(), r2.drop_first(), id);
    }
}

proof fn lemma_registry_step_prefix(es: Seq<(u64, u64)>)
    requires
        es.len() > 0,
    ensures
        registry(es.drop_last()).is_prefix_of(registry(es)),
{
    let r = registry(es.drop_last());
    let a = es.last().0;
    let b = es.last().1;
    let r1 = if r.contains(a) {
        r
    } else {
        r.push(a)
    };
    assert(r.is_prefix_of(r1)) by {
        assert(r =~= r1.subrange(0, r.len() as int));
    }
    assert(r1.is_prefix_of(registry(es))) by {
        assert(r1 =~= registry(es).subrange(0, r1.len() as int));
    }
    assert(r =~= registry(es).subrange(0, r.len() as int));
}

proof fn lemma_registry_take_prefix(es: Seq<(u64, u64)>, i: int)
    requires
        0 <= i <= es.len(),
    ensures
        registry(es.take(i)).is_prefix_of(registry(es)),
    decreases es.len() - i,
{
    if i == es.len() {
        assert(es.take(i) =~= es);
    } else {
        lemma_registry_take_prefix(es, i + 1);
        assert(es.take(i + 1).drop_last() =~= es.take(i));
        lemma_registry_step_prefix(es.take(i + 1));
        let ra = registry(es.take(i));
        let rb = registry(es.take(i + 1));
        let rc = registry(es);
        assert(ra =~= rc.subrange(0, ra.len() as int)) by {
            assert(ra =~= rb.subrange(0, ra.len() as int));
            assert(rb =~= rc.subrange(0, rb.len() as int));
        }
    }
}

/// The registry never lists an id twice.
pub proof fn lemma_registry_no_duplicates(es: Seq<(u64, u64)>)
    ensures
        registry(es).no_duplicates(),
    decreases es.len(),
{
    if es.len() > 0 {
        lemma_registry_no_duplicates(es.drop_last());
    }
}

/// The registry lists exactly the ids the pair list mentions.
pub proof fn lemma_registry_ids(es: Seq<(u64, u64)>)
    ensures
        forall|id: u64| registry(es).contains(id) <==> distinct_ids(es).contains(id),
    decreases es.len(),
{
    if es.len() > 0 {
        lemma_registry_ids(es.drop_last());
        let r = registry(es.drop_last());
        let a = es.last().0;
        let b = es.last().1;
        let r1 = if r.contains(a) {
            r
        } else {
            r.push(a)
        };
        let r2 = registry(es);
        assert forall|id: u64| r2.contains(id) implies distinct_ids(es).contains(id) by {
            if id == a || id == b {
                assert((es[es.len() - 1]).0 == a && (es[es.len() - 1]).1 == b);
            } else {
                let w = choose|w: int| 0 <= w < r2.len() && r2[w] == id;
                assert(w < r1.len() && r1[w] == id);
                assert(w < r.len() && r[w] == id);
                assert(r.contains(id));
                assert(distinct_ids(es.drop_last()).contains(id));
                let j = choose|j: int|
                    0 <= j < es.drop_last().len() && ((#[trigger] es.drop_last()[j]).0 == id
                        || es.drop_last()[j].1 == id);
                assert((es[j]).0 == id || (es[j]).1 == id);
            }
        }
        assert forall|id: u64| distinct_ids(es).contains(id) implies r2.contains(id) by {
            let j = choose|j: int|
                0 <= j < es.len() && ((#[trigger] es[j]).0 == id || es[j].1 == id);
            if j < es.len() - 1 {
                assert((es.drop_last()[j]).0 == id || es.drop_last()[j].1 == id);
                assert(distinct_ids(es.drop_last()).contains(id));
                assert(r.contains(id));
                let w = choose|w: int| 0 <= w < r.len() && r[w] == id;
                assert(r1[w] == id);
                assert(r2[w] == id);
            } else {
                if id == a {
                    if r.contains(a) {
                        let w = choose|w: int| 0 <= w < r.len() && r[w] == a;
                        assert(r1[w] == a && r2[w] == a);
                    } else {
                        assert(r1[r.len() as int] == a);
                        assert(r2[r.len() as int] == a);
                    }
                } else {
                    if r1.contains(b) {
                        let w = choose|w: int| 0 <= w < r1.len() && r1[w] == b;
                        assert(r2[w] == b);
                    } else {
                        assert(r2[r1.len() as int] == b);
                    }
                }
            }
        }
    } else {
        assert forall|id: u64| distinct_ids(es).contains(id) implies registry(es).contains(id) by {
            let j = choose|j: int|
                0 <= j < es.len() && ((#[trigger] es[j]).0 == id || es[j].1 == id);
        }
    }
}

/// The registry grows by at most two ids per pair.
pub proof fn lemma_registry_len(es: Seq<(u64, u64)>)
    ensures
        registry(es).len() <= 2 * es.len(),
    decreases es.len(),
{
    if es.len() > 0 {
        lemma_registry_len(es.drop_last());
    }
}

/// Node/edge count invariant: a pair list of length `E` naming `D`
/// distinct entity ids builds a graph of exactly `D` nodes and `E` edges.
pub proof fn lemma_node_edge_counts(es: Seq<(u64, u64)>)
    ensures
        registry(es).len() == distinct_ids(es).len(),
        resolved_edges(es).len() == es.len(),
{
    broadcast use vstd::seq_lib::group_seq_properties;

    lemma_registry_no_duplicates(es);
    lemma_registry_ids(es);
    assert(registry(es).to_set() =~= distinct_ids(es));
    registry(es).unique_seq_to_set();
}

/// Bijection invariant: distinct entity ids resolve to distinct node
/// positions, each id to the position that holds exactly it; one id
/// always resolves to one and the same position within a build.
pub proof fn lemma_resolution_bijection(es: Seq<(u64, u64)>, x: u64, y: u64)
    requires
        distinct_ids(es).contains(x),
        distinct_ids(es).contains(y),
        x != y,
    ensures
        node_of(es, x) != node_of(es, y),
        0 <= node_of(es, x) < registry(es).len(),
        registry(es)[node_of(es, x)] == x,
{
    lemma_registry_ids(es);
    lemma_position_of(registry(es), x);
    lemma_position_of(registry(es), y);
}

/// Finds the first position holding `id`, if any.
fn find_pos(v: &Vec<u64>, id: u64) -> (r: Option<usize>)
    ensures
        match r {
            Some(p) => p < v@.len() && v@[p as int] == id && forall|j: int|
                0 <= j < p ==> v@[j] != id,
            None => !v@.contains(id),
        },
{
    let mut k: usize = 0;
    while k < v.len()
        invariant
            k <= v@.len(),
            forall|j: int| 0 <= j < k ==> v@[j] != id,
        decreases v@.len() - k,
    {
        if v[k] == id {
            return Some(k);
        }
        k = k + 1;
    }
    None
}

proof fn lemma_first_pos_is_position_of(r: Seq<u64>, id: u64, p: int)
    requires
        0 <= p < r.len(),
        r[p] == id,
        forall|j: int| 0 <= j < p ==> r[j] != id,
    ensures
        position_of(r, id) == p,
{
    assert(r.contains(id));
    lemma_position_of(r, id);
    let q = position_of(r, id);
    if q < p {
        assert(r[q] != id);
    }
    if p < q {
        assert(r[p] != id);
    }
}

/// Builds the graph: one node per distinct entity id, in first-seen order,
/// and one edge per input pair, endpoints resolved to node positions.
/// Pairs may repeat (each adds its own edge) and may connect an id to
/// itself; ids are deduplicated, edges never are.
pub fn build_graph(edges: Vec<(u64, u64)>) -> (g: petgraph::graph::Graph<
    u64,
    (),
    petgraph::Undirected,
>)
    requires
        edges@.len() <= 0x7fff_ffff,
    ensures
        graph_nodes(g) == registry(edges@),
        graph_edges(g) == resolved_edges(edges@),
{
    let ghost es = edges@;
    let mut g = graph_new();
    let mut node_ids: Vec<u64> = Vec::new();
    let mut i: usize = 0;
    while i < edges.len()
        invariant
            i <= es.len(),
            es == edges@,
            es.len() <= 0x7fff_ffff,
            node_ids@ == registry(es.take(i as int)),
            graph_nodes(g) == node_ids@,
            graph_edges(g) =~= resolved_edges(es).take(i as int),
        decreases es.len() - i,
    {
        let (a, b) = edges[i];
        proof {
            assert(es.take(i + 1).drop_last() =~= es.take(i as int));
            assert(es.take(i + 1).last() == es[i as int]);
            lemma_registry_len(es.take(i as int));
            lemma_registry_len(es.take(i + 1));
            lemma_registry_take_prefix(es, i + 1);
        }
        let ghost r0 = registry(es.take(i as int));
        let ghost r1 = if r0.contains(a) {
            r0
        } else {
            r0.push(a)
        };
        let ghost r2 = registry(es.take(i + 1));
        proof {
            assert(r2 == if r1.contains(b) {
                r1
            } else {
                r1.push(b)
            });
            assert(r0.is_prefix_of(r1)) by {
                assert(r0 =~= r1.subrange(0, r0.len() as int));
            }
            assert(r1.is_prefix_of(r2)) by {
                assert(r1 =~= r2.subrange(0, r1.len() as int));
            }
        }
        let ai: petgraph::graph::NodeIndex = match find_pos(&node_ids, a) {
            Some(p) => {
                proof {
                    assert(r0[p as int] == a);
                    assert(r0.contains(a));
                    lemma_first_pos_is_position_of(r0, a, p as int);
                    lemma_position_of_prefix(r0, registry(es), a);
                }
                node_index_new(p)
            },
            None => {
                proof {
                    assert(r1 == r0.push(a));
                    assert(r1[r0.len() as int] == a);
                    assert(r1.contains(a));
                    lemma_position_of_push_absent(r0, a);
                    lemma_position_of_prefix(r1, registry(es), a);
                }
                let idx = graph_add_node(&mut g, a);
                node_ids.push(a);
                idx
            },
        };
        proof {
            assert(node_ids@ == r1);
            assert(r1.contains(a));
            lemma_position_of(r1, a);
            lemma_position_of_prefix(r1, registry(es), a);
            assert(node_id(ai) as int == position_of(registry(es), a));
            assert(node_id(ai) < r1.len());
        }
        let bi: petgraph::graph::NodeIndex = match find_pos(&node_ids, b) {
            Some(p) => {
                proof {
                    assert(r1[p as int] == b);
                    assert(r1.contains(b));
                    lemma_first_pos_is_position_of(r1, b, p as int);
                    lemma_position_of_prefix(r1, registry(es), b);
                }
                node_index_new(p)
            },
            None => {
                proof {
                    assert(r2 == r1.push(b));
                    assert(r2[r1.len() as int] == b);
                    assert(r2.contains(b));
                    lemma_position_of_push_absent(r1, b);
                    lemma_position_of_prefix(r2, registry(es), b);
                }
                let idx = graph_add_node(&mut g, b);
                node_ids.push(b);
                idx
            },
        };
        proof {
            assert(node_ids@ == r2);
            assert(r2.contains(b));
            lemma_position_of(r2, b);
            lemma_position_of_prefix(r2, registry(es), b);
            assert(node_id(bi) as int == position_of(registry(es), b));
            assert(node_id(bi) < r2.len());
        }
        graph_add_edge(&mut g, ai, bi);
        proof {
            assert(graph_edges(g) =~= resolved_edges(es).take(i + 1)) by {
                assert(resolved_edges(es)[i as int] == (
                    position_of(registry(es), a) as usize,
                    position_of(registry(es), b) as usize,
                ));
            }
        }
        i = i + 1;
    }
    proof {
        assert(es.take(es.len() as int) =~= es);
        assert(resolved_edges(es).take(es.len() as int) =~= resolved_edges(es));
    }
    g
}

} // verus!
