//! Rank assignment from start to end: the initial ranking, tightened and
//! normalized.

use crate::error::RankError;
use crate::forest::tightly_spanned;
use crate::graph::graph_shape;
use crate::graph::Digraph;
use crate::graph::Shape;
use crate::graph::lemma_ordered_graph_is_acyclic;
use crate::graph::topological_order;
use crate::initial::longest_path_ranking;
use crate::rank::covers;
use crate::rank::feasible;
use crate::rank::is_least_rank;
use crate::rank::lemma_least_rank_exists;
use crate::rank::normalizable;
use crate::rank::normalized;
use crate::rank::slack;
use crate::rank::Ranks;
use crate::tighten::feasible_tree;
use crate::tighten::has_headroom;
use crate::tree::tight_edges;
use petgraph::stable_graph::StableDiGraph;
use vstd::prelude::*;

verus! {

/// Normalizing changes no slack, so the same edges stay long enough and
/// the same edges stay tight.
pub proof fn lemma_normalize_keeps_slacks(shape: Shape, ranks: Map<usize, isize>, min_len: usize)
    requires
        shape.wf(),
        covers(ranks, shape),
        normalizable(ranks),
        ranks.dom().finite(),
    ensures
        covers(normalized(ranks), shape),
        feasible(ranks, min_len, shape) ==> feasible(normalized(ranks), min_len, shape),
        tight_edges(shape, normalized(ranks), min_len) == tight_edges(shape, ranks, min_len),
        tightly_spanned(shape, ranks, min_len) ==> tightly_spanned(
            shape,
            normalized(ranks),
            min_len,
        ),
{
    let after = normalized(ranks);
    if ranks.dom().len() > 0 {
        lemma_least_rank_exists(ranks);
    }
    assert(tight_edges(shape, after, min_len) =~= tight_edges(shape, ranks, min_len));
}

/// Ranks from 0 to `(count - 1) * min_len` leave room for tightening where
/// three times `count * min_len` is at most half of `isize::MAX`.
pub proof fn lemma_longest_paths_have_headroom(
    ranks: Map<usize, isize>,
    min_len: usize,
    count: nat,
)
    requires
        forall|v: usize|
            ranks.contains_key(v) ==> 0 <= #[trigger] ranks[v] <= (count - 1) * min_len,
        3 * (count * min_len) <= isize::MAX / 2,
    ensures
        has_headroom(ranks, min_len, count),
{
    assert((2 * count + 1) * min_len + (count - 1) * min_len == 3 * (count * min_len))
        by (nonlinear_arith);
}

/// Whether three times `count * minimum_length` is at most half of
/// `isize::MAX`, which leaves room for tightening a longest-path ranking.
fn leaves_room(count: usize, minimum_length: usize) -> (fits: bool)
    ensures
        fits == (3 * (count * minimum_length) <= isize::MAX / 2),
{
    match count.checked_mul(minimum_length) {
        Some(product) => product <= (isize::MAX / 2) as usize / 3,
        None => false,
    }
}

/// Ranks the vertices of a `petgraph` graph: the longest-path ranking,
/// tightened until tight edges span every connected component, and
/// normalized. `CyclicGraph` where the graph has a cycle, `TooLarge` where
/// three times the number of vertices times the minimum length exceeds half
/// of `isize::MAX`.
pub fn assign_ranks(
    g: &StableDiGraph<Option<isize>, usize>,
    minimum_length: usize,
) -> (made: Result<Ranks, RankError>)
    ensures
        made is Ok <==> !graph_shape(*g).has_cycle() && 3 * (graph_shape(*g).vertices.len()
            * minimum_length) <= isize::MAX / 2,
        made matches Ok(ranks) ==> ranks.min_len() == minimum_length,
        made matches Ok(ranks) ==> covers(ranks@, graph_shape(*g)),
        made matches Ok(ranks) ==> feasible(ranks@, minimum_length, graph_shape(*g)),
        made matches Ok(ranks) ==> tightly_spanned(graph_shape(*g), ranks@, minimum_length),
        made matches Ok(ranks) ==> graph_shape(*g).vertices.len() > 0 ==> is_least_rank(
            ranks@,
            0,
        ),
        made matches Ok(ranks) ==> normalizable(ranks@),
        made matches Err(refusal) ==> refusal == (if graph_shape(*g).has_cycle() {
            RankError::CyclicGraph
        } else {
            RankError::TooLarge
        }),
{
    let graph = Digraph::from_graph(g);
    match topological_order(g) {
        Err(_) => Err(RankError::CyclicGraph),
        Ok(order) => {
            proof {
                lemma_ordered_graph_is_acyclic(graph@, order@);
            }
            let count = graph.vertices().len();
            if !leaves_room(count, minimum_length) {
                return Err(RankError::TooLarge);
            }
            let mut ranks = longest_path_ranking(&graph, &order, minimum_length);
            proof {
                lemma_longest_paths_have_headroom(ranks@, minimum_length, count as nat);
            }
            let _ = feasible_tree(&graph, &mut ranks);
            proof {
                assert(ranks@.dom() =~= graph@.vertices.to_set());
                lemma_normalize_keeps_slacks(graph@, ranks@, minimum_length);
                graph@.vertices.unique_seq_to_set();
            }
            ranks.normalize();
            Ok(ranks)
        },
    }
}

} // verus!
