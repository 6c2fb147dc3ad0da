//! The finished part of tightening: components that tight trees span.

use crate::connect::closed_under;
use crate::connect::connected;
use crate::connect::lemma_connected_refines;
use crate::connect::lemma_connected_symmetric;
use crate::connect::lemma_connected_transitive;
use crate::graph::Shape;
use crate::shift::crosses;
use crate::shift::lemma_closed_for_tight_edges;
use crate::shift::lemma_tight_connection_survives;
use crate::tree::is_tight_tree;
use crate::tree::spans_tight_component;
use crate::tree::tight_edges;
use crate::tree::TightTree;
use vstd::prelude::*;

verus! {

/// Whatever the edges of the graph connect, its tight edges connect too.
pub open spec fn tightly_spanned(shape: Shape, ranks: Map<usize, isize>, min_len: usize) -> bool {
    forall|a: usize, b: usize|
        connected(shape.edge_set(), a, b) ==> connected(tight_edges(shape, ranks, min_len), a, b)
}

/// Any two vertices of the graph are connected.
pub open spec fn is_connected(shape: Shape) -> bool {
    forall|a: usize, b: usize|
        shape.vertices.contains(a) && shape.vertices.contains(b) ==> connected(
            shape.edge_set(),
            a,
            b,
        )
}

/// The finished part of the work: `done` is a set of vertices that no edge
/// leaves, whose edges have their ends connected by tight edges, and the
/// trees are tight trees that share it out among them.
pub open spec fn settled_part(
    shape: Shape,
    ranks: Map<usize, isize>,
    min_len: usize,
    done: Set<usize>,
    trees: Seq<TightTree>,
) -> bool {
    &&& closed_under(shape.edge_set(), done)
    &&& forall|v: usize| done.contains(v) ==> shape.vertices.contains(v)
    &&& forall|a: usize, b: usize|
        #![trigger shape.edges.contains((a, b))]
        shape.edges.contains((a, b)) && done.contains(a) ==> connected(
            tight_edges(shape, ranks, min_len),
            a,
            b,
        )
    &&& forall|t: int|
        0 <= t < trees.len() ==> {
            &&& (#[trigger] trees[t]).wf()
            &&& is_tight_tree(trees[t]@, shape, ranks, min_len)
            &&& spans_tight_component(trees[t]@, shape, ranks, min_len, trees[t]@.vertices[0])
            &&& forall|v: usize| trees[t]@.vertices.contains(v) ==> done.contains(v)
        }
    &&& forall|v: usize|
        done.contains(v) ==> exists|t: int|
            0 <= t < trees.len() && (#[trigger] trees[t])@.vertices.contains(v)
    &&& forall|s: int, t: int, v: usize|
        #![trigger trees[s]@.vertices.contains(v), trees[t]@.vertices.contains(v)]
        0 <= s < trees.len() && 0 <= t < trees.len() && trees[s]@.vertices.contains(v)
            && trees[t]@.vertices.contains(v) ==> s == t
}

/// The finished part stays finished while the ranks of its vertices stay
/// as they are.
pub(crate) proof fn lemma_settled_part_persists(
    shape: Shape,
    ranks: Map<usize, isize>,
    after: Map<usize, isize>,
    min_len: usize,
    done: Set<usize>,
    trees: Seq<TightTree>,
)
    requires
        settled_part(shape, ranks, min_len, done, trees),
        forall|v: usize| done.contains(v) ==> after[v] == ranks[v],
    ensures
        settled_part(shape, after, min_len, done, trees),
{
    let then = tight_edges(shape, after, min_len);
    lemma_closed_for_tight_edges(shape, ranks, min_len, done);
    lemma_closed_for_tight_edges(shape, after, min_len, done);
    assert forall|a: usize, b: usize|
        #![trigger shape.edges.contains((a, b))]
        shape.edges.contains((a, b)) && done.contains(a) implies connected(then, a, b) by {
        lemma_tight_connection_survives(shape, ranks, after, min_len, done, a, b);
    }
    assert forall|t: int| 0 <= t < trees.len() implies {
        &&& (#[trigger] trees[t]).wf()
        &&& is_tight_tree(trees[t]@, shape, after, min_len)
        &&& spans_tight_component(trees[t]@, shape, after, min_len, trees[t]@.vertices[0])
        &&& forall|v: usize| trees[t]@.vertices.contains(v) ==> done.contains(v)
    } by {
        let tree = trees[t]@;
        let root = tree.vertices[0];
        assert forall|v: usize| tree.vertices.contains(v) <==> connected(then, root, v) by {
            if tree.vertices.contains(v) {
                lemma_tight_connection_survives(shape, ranks, after, min_len, done, root, v);
            }
            if connected(then, root, v) {
                lemma_tight_connection_survives(shape, after, ranks, min_len, done, root, v);
            }
        }
    }
}

/// A tight tree that no edge leaves joins the finished part.
pub(crate) proof fn lemma_component_settles(
    shape: Shape,
    ranks: Map<usize, isize>,
    min_len: usize,
    done: Set<usize>,
    more: Set<usize>,
    trees: Seq<TightTree>,
    tree: TightTree,
    root: usize,
)
    requires
        shape.wf(),
        settled_part(shape, ranks, min_len, done, trees),
        tree.wf(),
        tree@.vertices[0] == root,
        is_tight_tree(tree@, shape, ranks, min_len),
        spans_tight_component(tree@, shape, ranks, min_len, root),
        forall|v: usize| tree@.vertices.contains(v) ==> shape.vertices.contains(v),
        forall|v: usize| tree@.vertices.contains(v) ==> !done.contains(v),
        forall|e: int|
            #![trigger shape.edges[e]]
            0 <= e < shape.edges.len() ==> !crosses(shape, tree@.vertices, e),
        forall|v: usize| more.contains(v) <==> done.contains(v) || tree@.vertices.contains(v),
    ensures
        settled_part(shape, ranks, min_len, more, trees.push(tree)),
{
    let tight = tight_edges(shape, ranks, min_len);
    let all = trees.push(tree);
    let last = trees.len() as int;
    assert forall|a: usize, b: usize|
        #![trigger shape.edges.contains((a, b))]
        shape.edges.contains((a, b)) && more.contains(a) implies connected(tight, a, b) by {
        if !done.contains(a) {
            lemma_connected_symmetric(tight, root, a);
            lemma_connected_transitive(tight, a, root, b);
        }
    }
    assert forall|v: usize| more.contains(v) implies exists|t: int|
        0 <= t < all.len() && (#[trigger] all[t])@.vertices.contains(v) by {
        if done.contains(v) {
            let t = choose|t: int|
                0 <= t < trees.len() && (#[trigger] trees[t])@.vertices.contains(v);
            assert(all[t] == trees[t]);
        } else {
            assert(all[last]@.vertices.contains(v));
        }
    }
    assert forall|s: int, t: int, v: usize|
        #![trigger all[s]@.vertices.contains(v), all[t]@.vertices.contains(v)]
        0 <= s < all.len() && 0 <= t < all.len() && all[s]@.vertices.contains(v)
            && all[t]@.vertices.contains(v) implies s == t by {
        if s < last {
            assert(done.contains(v));
        }
        if t < last {
            assert(done.contains(v));
        }
    }
}

/// Where every vertex of the graph is in the finished part, tight edges
/// connect whatever the graph connects.
pub proof fn lemma_settled_part_is_spanned(
    shape: Shape,
    ranks: Map<usize, isize>,
    min_len: usize,
    trees: Seq<TightTree>,
)
    requires
        shape.wf(),
        settled_part(shape, ranks, min_len, shape.vertices.to_set(), trees),
    ensures
        tightly_spanned(shape, ranks, min_len),
{
    let tight = tight_edges(shape, ranks, min_len);
    assert forall|a: usize, b: usize| connected(shape.edge_set(), a, b) implies connected(
        tight,
        a,
        b,
    ) by {
        lemma_connected_refines(shape.edge_set(), tight, a, b);
    }
}

/// A set of vertices and a list of distinct vertices outside it, both
/// taken from the same list of distinct vertices, hold together no more
/// vertices than that list.
pub(crate) proof fn lemma_parts_fit(done: Set<usize>, part: Seq<usize>, whole: Seq<usize>)
    requires
        done.finite(),
        part.no_duplicates(),
        whole.no_duplicates(),
        forall|v: usize| done.contains(v) ==> whole.contains(v),
        forall|v: usize| part.contains(v) ==> whole.contains(v) && !done.contains(v),
    ensures
        done.len() + part.len() <= whole.len(),
{
    part.unique_seq_to_set();
    whole.unique_seq_to_set();
    vstd::set_lib::lemma_set_disjoint_lens(done, part.to_set());
    vstd::set_lib::lemma_len_subset(done + part.to_set(), whole.to_set());
}

} // verus!
