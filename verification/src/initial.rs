//! The initial ranking: every vertex as low as its predecessors allow.

use crate::error::RankError;
use crate::graph::graph_shape;
use crate::graph::lemma_ordered_graph_is_acyclic;
use crate::graph::topological_order;
use crate::graph::Digraph;
use crate::graph::Shape;
use crate::rank::covers;
use crate::rank::feasible;
use crate::rank::Ranks;
use petgraph::stable_graph::StableDiGraph;
use std::collections::HashMap;
use vstd::prelude::*;

verus! {

broadcast use vstd::std_specs::hash::group_hash_axioms;

/// The rank of `v` is the greatest of the ranks of its predecessors, each
/// raised by the minimum length, or 0 where no edge leads into `v`.
pub open spec fn is_longest_path_rank(
    ranks: Map<usize, isize>,
    min_len: usize,
    shape: Shape,
    v: usize,
) -> bool {
    &&& forall|e: int|
        #![trigger shape.edges[e]]
        0 <= e < shape.edges.len() && shape.edges[e].1 == v ==> ranks[v] >= ranks[shape.edges[e].0]
            + min_len
    &&& {
        ||| exists|e: int|
            #![trigger shape.edges[e]]
            0 <= e < shape.edges.len() && shape.edges[e].1 == v && ranks[v]
                == ranks[shape.edges[e].0] + min_len
        ||| ranks[v] == 0 && forall|e: int|
            #![trigger shape.edges[e]]
            0 <= e < shape.edges.len() ==> shape.edges[e].1 != v
    }
}

/// Every vertex of the graph has its longest-path rank.
pub open spec fn is_longest_path_ranking(
    ranks: Map<usize, isize>,
    min_len: usize,
    shape: Shape,
) -> bool {
    &&& covers(ranks, shape)
    &&& forall|v: usize| ranks.contains_key(v) ==> is_longest_path_rank(ranks, min_len, shape, v)
}

/// Two longest-path rankings of one graph agree on the vertex at position
/// `i` of a topological order.
proof fn lemma_rankings_agree_at(
    shape: Shape,
    order: Seq<usize>,
    min_len: usize,
    first: Map<usize, isize>,
    second: Map<usize, isize>,
    i: int,
)
    requires
        shape.wf(),
        shape.is_topological_order(order),
        is_longest_path_ranking(first, min_len, shape),
        is_longest_path_ranking(second, min_len, shape),
        0 <= i < order.len(),
    ensures
        first[order[i]] == second[order[i]],
    decreases i,
{
    let v = order[i];
    assert(order.contains(v));
    assert forall|e: int|
        #![trigger shape.edges[e]]
        0 <= e < shape.edges.len() && shape.edges[e].1 == v implies first[shape.edges[e].0]
        == second[shape.edges[e].0] by {
        let tail = shape.edges[e].0;
        assert(order.contains(tail));
        let j = choose|j: int| 0 <= j < order.len() && order[j] == tail;
        lemma_rankings_agree_at(shape, order, min_len, first, second, j);
    }
}

/// A graph that has a topological order has one longest-path ranking only.
pub proof fn lemma_longest_path_ranking_is_unique(
    shape: Shape,
    order: Seq<usize>,
    min_len: usize,
    first: Map<usize, isize>,
    second: Map<usize, isize>,
)
    requires
        shape.wf(),
        shape.is_topological_order(order),
        is_longest_path_ranking(first, min_len, shape),
        is_longest_path_ranking(second, min_len, shape),
    ensures
        first == second,
{
    assert forall|v: usize| first.contains_key(v) implies first[v] == second[v] by {
        assert(order.contains(v));
        let i = choose|i: int| 0 <= i < order.len() && order[i] == v;
        lemma_rankings_agree_at(shape, order, min_len, first, second, i);
    }
}

/// Ranks the vertices in the given topological order: each one gets the
/// greatest of its predecessors' ranks plus the minimum length, or 0 where
/// it has no predecessor.
pub fn longest_path_ranking(graph: &Digraph, order: &Vec<usize>, minimum_length: usize) -> (ranks:
    Ranks)
    requires
        graph.wf(),
        graph@.is_topological_order(order@),
        graph@.vertices.len() * minimum_length <= isize::MAX,
    ensures
        ranks.min_len() == minimum_length,
        is_longest_path_ranking(ranks@, minimum_length, graph@),
        feasible(ranks@, minimum_length, graph@),
        forall|v: usize|
            ranks@.contains_key(v) ==> 0 <= #[trigger] ranks@[v] <= (graph@.vertices.len() - 1)
                * minimum_length,
{
    let edges = graph.edges();
    let ghost shape = graph@;
    let ghost count = shape.vertices.len() as int;
    proof {
        order@.unique_seq_to_set();
        shape.vertices.unique_seq_to_set();
        assert(order@.to_set() =~= shape.vertices.to_set());
    }
    let mut inner: HashMap<usize, isize> = HashMap::new();
    let mut i: usize = 0;
    while i < order.len()
        invariant
            i <= order.len(),
            order.len() == count,
            shape == graph@,
            count == shape.vertices.len(),
            edges@ == shape.edges,
            graph.wf(),
            shape.is_topological_order(order@),
            count * minimum_length <= isize::MAX,
            forall|v: usize|
                inner@.contains_key(v) <==> exists|j: int| 0 <= j < i && #[trigger] order[j] == v,
            forall|j: int| 0 <= j < i ==> 0 <= inner@[#[trigger] order[j]] <= j * minimum_length,
            forall|j: int|
                0 <= j < i ==> is_longest_path_rank(
                    inner@,
                    minimum_length,
                    shape,
                    #[trigger] order[j],
                ),
        decreases order.len() - i,
    {
        let v = order[i];
        proof {
            assert(order@.contains(v));
            assert(minimum_length <= isize::MAX) by (nonlinear_arith)
                requires
                    count * minimum_length <= isize::MAX,
                    count >= 1,
            ;
            assert(i * minimum_length <= isize::MAX) by (nonlinear_arith)
                requires
                    count * minimum_length <= isize::MAX,
                    0 <= i < count,
            ;
        }
        let touching = graph.incident_edges(v);
        let mut rank: isize = 0;
        let mut k: usize = 0;
        while k < touching.len()
            invariant
                k <= touching.len(),
                i < order.len(),
                v == order[i as int],
                shape == graph@,
                edges@ == shape.edges,
                graph.wf(),
                shape.is_topological_order(order@),
                minimum_length <= isize::MAX,
                i * minimum_length <= isize::MAX,
                forall|m: int|
                    0 <= m < touching.len() ==> 0 <= #[trigger] touching[m] < shape.edges.len(),
                forall|u: usize|
                    inner@.contains_key(u) <==> exists|j: int|
                        0 <= j < i && #[trigger] order[j] == u,
                forall|j: int|
                    0 <= j < i ==> 0 <= inner@[#[trigger] order[j]] <= j * minimum_length,
                0 <= rank <= i * minimum_length,
                forall|m: int|
                    0 <= m < k && shape.edges[#[trigger] touching[m] as int].1 == v ==> rank
                        >= inner@[shape.edges[touching[m] as int].0] + minimum_length,
                ({
                    ||| exists|m: int|
                        0 <= m < k && shape.edges[#[trigger] touching[m] as int].1 == v && rank
                            == inner@[shape.edges[touching[m] as int].0] + minimum_length
                    ||| rank == 0 && forall|m: int|
                        0 <= m < k ==> shape.edges[#[trigger] touching[m] as int].1 != v
                }),
            decreases touching.len() - k,
        {
            let (tail, head) = edges[touching[k]];
            if head == v {
                proof {
                    assert(order@.contains(tail));
                    let j = choose|j: int| 0 <= j < order@.len() && order@[j] == tail;
                    assert(inner@[tail] + minimum_length <= i * minimum_length)
                        by (nonlinear_arith)
                        requires
                            inner@[tail] <= j * minimum_length,
                            j < i,
                            minimum_length >= 0,
                    ;
                }
                let below = match inner.get(&tail) {
                    Some(below) => *below,
                    None => vstd::pervasive::unreached(),
                };
                let reached = below + minimum_length as isize;
                if reached > rank {
                    rank = reached;
                }
            }
            k += 1;
        }
        let ghost before = inner@;
        inner.insert(v, rank);
        proof {
            assert forall|j: int| 0 <= j < i + 1 implies is_longest_path_rank(
                inner@,
                minimum_length,
                shape,
                #[trigger] order[j],
            ) by {
                let w = order[j];
                // The tail of an edge into `w` stands before `w`, so its rank is not the new one.
                assert forall|e: int|
                    #![trigger shape.edges[e]]
                    0 <= e < shape.edges.len() && shape.edges[e].1 == w implies before.contains_key(
                    shape.edges[e].0,
                ) && shape.edges[e].0 != v by {
                    assert(order@.contains(shape.edges[e].0));
                    let a = choose|a: int| 0 <= a < order@.len() && order@[a] == shape.edges[e].0;
                    assert(order[a] == shape.edges[e].0 && order[j] == shape.edges[e].1);
                }
                if j < i {
                    assert(is_longest_path_rank(before, minimum_length, shape, w));
                    if exists|e: int|
                        #![trigger shape.edges[e]]
                        0 <= e < shape.edges.len() && shape.edges[e].1 == w && before[w]
                            == before[shape.edges[e].0] + minimum_length {
                        let e = choose|e: int|
                            #![trigger shape.edges[e]]
                            0 <= e < shape.edges.len() && shape.edges[e].1 == w && before[w]
                                == before[shape.edges[e].0] + minimum_length;
                        assert(inner@[w] == inner@[shape.edges[e].0] + minimum_length);
                    }
                } else {
                    // Every edge into `v` was among those looked at.
                    assert forall|e: int|
                        #![trigger shape.edges[e]]
                        0 <= e < shape.edges.len() && shape.edges[e].1 == v implies exists|m: int|
                        0 <= m < k && #[trigger] touching[m] == e by {
                        assert(e < edges.len() <= usize::MAX);
                        assert(touching@.contains(e as usize));
                    }
                    if exists|m: int|
                        0 <= m < k && shape.edges[#[trigger] touching[m] as int].1 == v && rank
                            == before[shape.edges[touching[m] as int].0] + minimum_length {
                        let m = choose|m: int|
                            0 <= m < k && shape.edges[#[trigger] touching[m] as int].1 == v && rank
                                == before[shape.edges[touching[m] as int].0] + minimum_length;
                        let e = touching[m] as int;
                        assert(inner@[v] == inner@[shape.edges[e].0] + minimum_length);
                    }
                }
            }
        }
        i += 1;
    }
    let ranks = Ranks::new_unchecked(inner, minimum_length);
    proof {
        assert forall|v: usize| ranks@.contains_key(v) <==> shape.vertices.contains(v) by {
            if ranks@.contains_key(v) {
                assert(order@.contains(v));
            }
            if shape.vertices.contains(v) {
                assert(order@.contains(v));
            }
        }
        assert forall|v: usize| ranks@.contains_key(v) implies is_longest_path_rank(
            ranks@,
            minimum_length,
            shape,
            v,
        ) && 0 <= #[trigger] ranks@[v] <= (count - 1) * minimum_length by {
            let j = choose|j: int| 0 <= j < order.len() && #[trigger] order[j] == v;
            assert(j * minimum_length <= (count - 1) * minimum_length) by (nonlinear_arith)
                requires
                    0 <= j <= count - 1,
                    minimum_length >= 0,
            ;
        }
    }
    ranks
}

/// The longest-path ranking of a `petgraph` graph: `CyclicGraph` where the
/// graph has a cycle, `TooLarge` where the number of vertices times the
/// minimum length does not fit in `isize`.
pub fn initial_ranking(
    g: &StableDiGraph<Option<isize>, usize>,
    minimum_length: usize,
) -> (made: Result<Ranks, RankError>)
    ensures
        made is Ok <==> !graph_shape(*g).has_cycle() && graph_shape(*g).vertices.len()
            * minimum_length <= isize::MAX,
        made matches Ok(ranks) ==> ranks.min_len() == minimum_length,
        made matches Ok(ranks) ==> is_longest_path_ranking(
            ranks@,
            minimum_length,
            graph_shape(*g),
        ),
        made matches Ok(ranks) ==> feasible(ranks@, minimum_length, graph_shape(*g)),
        made matches Ok(ranks) ==> forall|v: usize|
            ranks@.contains_key(v) ==> 0 <= #[trigger] ranks@[v] <= (graph_shape(
                *g,
            ).vertices.len() - 1) * minimum_length,
        made matches Err(refusal) ==> refusal == (if graph_shape(*g).has_cycle() {
            RankError::CyclicGraph
        } else {
            RankError::TooLarge
        }),
{
    let graph = Digraph::from_graph(g);
    match topological_order(g) {
        Err(_) => Err(RankError::CyclicGraph),
        Ok(order) => {
            proof {
                lemma_ordered_graph_is_acyclic(graph@, order@);
            }
            if fits(graph.vertices().len(), minimum_length) {
                Ok(longest_path_ranking(&graph, &order, minimum_length))
            } else {
                Err(RankError::TooLarge)
            }
        },
    }
}

/// Whether `count * minimum_length` fits in `isize`.
fn fits(count: usize, minimum_length: usize) -> (fits: bool)
    ensures
        fits == (count * minimum_length <= isize::MAX),
{
    match count.checked_mul(minimum_length) {
        Some(product) => product <= isize::MAX as usize,
        None => false,
    }
}

} // verus!
