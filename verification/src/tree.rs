//! Tight trees: the vertices that edges of slack zero join to a start vertex.

use crate::connect::connected;
use crate::connect::lemma_closed_set_holds_connected;
use crate::connect::lemma_connected_one_further;
use crate::connect::lemma_connected_to_itself;
use crate::graph::Digraph;
use crate::graph::Shape;
use crate::rank::banded;
use crate::rank::covers;
use crate::rank::slack;
use crate::rank::Ranks;
use std::collections::HashSet;
use vstd::prelude::*;

verus! {

broadcast use vstd::std_specs::hash::group_hash_axioms;

/// The slack of every edge of the graph fits in `isize`.
pub open spec fn slacks_fit(ranks: Map<usize, isize>, min_len: usize, shape: Shape) -> bool {
    forall|e: int|
        #![trigger shape.edges[e]]
        0 <= e < shape.edges.len() ==> isize::MIN <= slack(
            ranks,
            min_len,
            shape.edges[e].0,
            shape.edges[e].1,
        ) <= isize::MAX
}

/// The tight edges of the graph: those with slack zero.
pub open spec fn tight_edges(shape: Shape, ranks: Map<usize, isize>, min_len: usize) -> Set<
    (usize, usize),
> {
    Set::new(
        |edge: (usize, usize)|
            shape.edges.contains(edge) && slack(ranks, min_len, edge.0, edge.1) == 0,
    )
}

/// Edge `i` of the tree joins vertex `i + 1` of the tree to an earlier one.
pub open spec fn hangs_on_earlier(tree: Shape, i: int) -> bool {
    exists|j: int|
        0 <= j <= i && {
            ||| tree.edges[i] == (#[trigger] tree.vertices[j], tree.vertices[i + 1])
            ||| tree.edges[i] == (tree.vertices[i + 1], tree.vertices[j])
        }
}

/// `tree` lists distinct vertices, and each one after the first hangs on an
/// earlier one by a tight edge of the graph.
pub open spec fn is_tight_tree(
    tree: Shape,
    shape: Shape,
    ranks: Map<usize, isize>,
    min_len: usize,
) -> bool {
    &&& tree.vertices.len() == tree.edges.len() + 1
    &&& tree.vertices.no_duplicates()
    &&& forall|i: int|
        0 <= i < tree.edges.len() ==> tight_edges(shape, ranks, min_len).contains(
            #[trigger] tree.edges[i],
        ) && hangs_on_earlier(tree, i)
}

/// The tree holds exactly the vertices that tight edges connect to `root`.
pub open spec fn spans_tight_component(
    tree: Shape,
    shape: Shape,
    ranks: Map<usize, isize>,
    min_len: usize,
    root: usize,
) -> bool {
    forall|v: usize|
        tree.vertices.contains(v) <==> connected(tight_edges(shape, ranks, min_len), root, v)
}

/// Every tight edge at `v` has both its ends among `found`.
spec fn settled(
    shape: Shape,
    ranks: Map<usize, isize>,
    min_len: usize,
    found: Seq<usize>,
    v: usize,
) -> bool {
    forall|e: int|
        #![trigger shape.edges[e]]
        0 <= e < shape.edges.len() && shape.touches(e, v) && slack(
            ranks,
            min_len,
            shape.edges[e].0,
            shape.edges[e].1,
        ) == 0 ==> found.contains(shape.edges[e].0) && found.contains(shape.edges[e].1)
}

/// Distinct items that all occur in another sequence are no more than that
/// sequence has.
pub(crate) proof fn lemma_distinct_within(part: Seq<usize>, whole: Seq<usize>)
    requires
        part.no_duplicates(),
        forall|v: usize| part.contains(v) ==> whole.contains(v),
    ensures
        part.len() <= whole.len(),
{
    part.unique_seq_to_set();
    whole.lemma_cardinality_of_set();
    vstd::set_lib::lemma_len_subset(part.to_set(), whole.to_set());
}

/// Distinct items and one more that is not among them, all taken from
/// another sequence, are no more than that sequence has.
pub(crate) proof fn lemma_room_for_one_more(part: Seq<usize>, extra: usize, whole: Seq<usize>)
    requires
        part.no_duplicates(),
        !part.contains(extra),
        whole.contains(extra),
        forall|v: usize| part.contains(v) ==> whole.contains(v),
    ensures
        part.len() + 1 <= whole.len(),
{
    let longer = part.push(extra);
    lemma_distinct_within(longer, whole);
}

/// Ranks within half the range of `isize`, less the minimum length, have
/// slacks that fit in `isize`.
pub proof fn lemma_banded_slacks_fit(shape: Shape, ranks: Map<usize, isize>, min_len: usize)
    requires
        shape.wf(),
        covers(ranks, shape),
        banded(ranks, isize::MAX / 2 - min_len),
    ensures
        slacks_fit(ranks, min_len, shape),
{
}

/// A set of vertices found by following tight edges from a root, in the
/// order of discovery, with the edge through which each one was reached.
#[derive(Debug)]
pub struct TightTree {
    vertices: Vec<usize>,
    edges: Vec<(usize, usize)>,
    members: HashSet<usize>,
}

impl View for TightTree {
    type V = Shape;

    closed spec fn view(&self) -> Shape {
        Shape { vertices: self.vertices@, edges: self.edges@ }
    }
}

impl TightTree {
    /// The tree has a root, lists no vertex twice, and has one edge for each
    /// vertex but the root.
    pub closed spec fn wf(&self) -> bool {
        &&& self.vertices@.len() >= 1
        &&& self.vertices@.no_duplicates()
        &&& self.edges@.len() + 1 == self.vertices@.len()
        &&& forall|v: usize| self.members@.contains(v) <==> self.vertices@.contains(v)
    }

    /// What `wf` says of the view.
    pub proof fn lemma_wf(&self)
        requires
            self.wf(),
        ensures
            1 <= self@.vertices.len() <= usize::MAX,
            self@.vertices.no_duplicates(),
            self@.edges.len() + 1 == self@.vertices.len(),
    {
        assert(self.vertices.len() <= usize::MAX);
    }

    /// The vertices in the order in which they were found; the root is first.
    pub fn vertices(&self) -> (vertices: &Vec<usize>)
        ensures
            vertices@ == self@.vertices,
    {
        &self.vertices
    }

    /// For each vertex after the root, the edge that reached it.
    pub fn edges(&self) -> (edges: &Vec<(usize, usize)>)
        ensures
            edges@ == self@.edges,
    {
        &self.edges
    }

    /// Whether `v` belongs to the tree.
    pub fn contains(&self, v: usize) -> (found: bool)
        requires
            self.wf(),
        ensures
            found == self@.vertices.contains(v),
    {
        self.members.contains(&v)
    }

    /// Explores the graph depth first from `root` along tight edges, in
    /// either direction, and returns every vertex reached.
    pub fn grow(graph: &Digraph, ranks: &Ranks, root: usize) -> (tree: TightTree)
        requires
            graph.wf(),
            covers(ranks@, graph@),
            slacks_fit(ranks@, ranks.min_len(), graph@),
            graph@.vertices.contains(root),
        ensures
            tree.wf(),
            tree@.vertices[0] == root,
            is_tight_tree(tree@, graph@, ranks@, ranks.min_len()),
            spans_tight_component(tree@, graph@, ranks@, ranks.min_len(), root),
            forall|v: usize| tree@.vertices.contains(v) ==> graph@.vertices.contains(v),
    {
        let ghost shape = graph@;
        let ghost min_len = ranks.min_len();
        let ghost tight = tight_edges(shape, ranks@, min_len);
        let graph_edges = graph.edges();
        let mut vertices: Vec<usize> = Vec::new();
        let mut edges: Vec<(usize, usize)> = Vec::new();
        let mut members: HashSet<usize> = HashSet::new();
        let mut stack: Vec<usize> = Vec::new();
        vertices.push(root);
        members.insert(root);
        stack.push(root);
        proof {
            lemma_connected_to_itself(tight, root);
        }
        while stack.len() > 0
            invariant
                shape == graph@,
                min_len == ranks.min_len(),
                tight == tight_edges(shape, ranks@, min_len),
                graph_edges@ == shape.edges,
                graph.wf(),
                covers(ranks@, shape),
                slacks_fit(ranks@, min_len, shape),
                vertices@.len() >= 1,
                vertices@[0] == root,
                vertices@.len() <= shape.vertices.len(),
                is_tight_tree(Shape { vertices: vertices@, edges: edges@ }, shape, ranks@, min_len),
                forall|v: usize| members@.contains(v) <==> vertices@.contains(v),
                forall|v: usize| vertices@.contains(v) ==> shape.vertices.contains(v),
                forall|v: usize| vertices@.contains(v) ==> connected(tight, root, v),
                forall|s: int| 0 <= s < stack@.len() ==> vertices@.contains(#[trigger] stack@[s]),
                forall|v: usize|
                    vertices@.contains(v) ==> stack@.contains(v) || settled(
                        shape,
                        ranks@,
                        min_len,
                        vertices@,
                        v,
                    ),
            decreases 2 * (shape.vertices.len() - vertices@.len()) + stack@.len(),
        {
            let ghost stack_before = stack@;
            let ghost measure = 2 * (shape.vertices.len() - vertices@.len()) + stack@.len();
            let u = stack.pop().unwrap();
            proof {
                assert forall|v: usize| vertices@.contains(v) implies stack@.contains(v) || v == u
                    || settled(shape, ranks@, min_len, vertices@, v) by {
                    if stack_before.contains(v) && v != u {
                        let s = choose|s: int| 0 <= s < stack_before.len() && stack_before[s] == v;
                        assert(stack@[s] == v);
                    }
                }
            }
            let ghost at = choose|at: int| 0 <= at < vertices@.len() && vertices@[at] == u;
            let touching = graph.incident_edges(u);
            let mut k: usize = 0;
            while k < touching.len()
                invariant
                    k <= touching.len(),
                    shape == graph@,
                    min_len == ranks.min_len(),
                    tight == tight_edges(shape, ranks@, min_len),
                    graph_edges@ == shape.edges,
                    graph.wf(),
                    covers(ranks@, shape),
                    slacks_fit(ranks@, min_len, shape),
                    forall|m: int|
                        0 <= m < touching.len() ==> 0 <= #[trigger] touching[m]
                            < shape.edges.len() && shape.touches(touching[m] as int, u),
                    vertices@.len() >= 1,
                    vertices@[0] == root,
                    vertices@.len() <= shape.vertices.len(),
                    0 <= at < vertices@.len(),
                    vertices@[at] == u,
                    is_tight_tree(
                        Shape { vertices: vertices@, edges: edges@ },
                        shape,
                        ranks@,
                        min_len,
                    ),
                    forall|v: usize| members@.contains(v) <==> vertices@.contains(v),
                    forall|v: usize| vertices@.contains(v) ==> shape.vertices.contains(v),
                    forall|v: usize| vertices@.contains(v) ==> connected(tight, root, v),
                    forall|s: int|
                        0 <= s < stack@.len() ==> vertices@.contains(#[trigger] stack@[s]),
                    forall|v: usize|
                        vertices@.contains(v) ==> stack@.contains(v) || v == u || settled(
                            shape,
                            ranks@,
                            min_len,
                            vertices@,
                            v,
                        ),
                    forall|m: int|
                        0 <= m < k && slack(
                            ranks@,
                            min_len,
                            shape.edges[#[trigger] touching[m] as int].0,
                            shape.edges[touching[m] as int].1,
                        ) == 0 ==> vertices@.contains(shape.edges[touching[m] as int].0)
                            && vertices@.contains(shape.edges[touching[m] as int].1),
                    2 * (shape.vertices.len() - vertices@.len()) + stack@.len() < measure,
                decreases touching.len() - k,
            {
                let (tail, head) = graph_edges[touching[k]];
                if ranks.slack(tail, head) == 0 {
                    let other = if tail == u {
                        head
                    } else {
                        tail
                    };
                    if !members.contains(&other) {
                        let ghost found = vertices@;
                        let ghost tree_before = Shape { vertices: vertices@, edges: edges@ };
                        let ghost stack_then = stack@;
                        proof {
                            lemma_connected_one_further(tight, root, u, other);
                            lemma_room_for_one_more(found, other, shape.vertices);
                        }
                        vertices.push(other);
                        edges.push((tail, head));
                        members.insert(other);
                        stack.push(other);
                        proof {
                            let tree = Shape { vertices: vertices@, edges: edges@ };
                            assert forall|i: int| 0 <= i < tree.edges.len() implies tight.contains(
                                #[trigger] tree.edges[i],
                            ) && hangs_on_earlier(tree, i) by {
                                if i < tree_before.edges.len() {
                                    let j = choose|j: int|
                                        0 <= j <= i && {
                                            ||| tree_before.edges[i] == (
                                                #[trigger] tree_before.vertices[j],
                                                tree_before.vertices[i + 1],
                                            )
                                            ||| tree_before.edges[i] == (
                                                tree_before.vertices[i + 1],
                                                tree_before.vertices[j],
                                            )
                                        };
                                    assert(tree.vertices[j] == tree_before.vertices[j]);
                                } else {
                                    assert(tree.vertices[at] == u);
                                }
                            }
                            assert forall|v: usize| vertices@.contains(v) <==> (found.contains(v)
                                || v == other) by {
                                if found.contains(v) {
                                    let j = choose|j: int| 0 <= j < found.len() && found[j] == v;
                                    assert(vertices@[j] == v);
                                }
                                if v == other {
                                    assert(vertices@[found.len() as int] == v);
                                }
                            }
                            assert forall|v: usize| vertices@.contains(v) implies stack@.contains(v)
                                || v == u || settled(shape, ranks@, min_len, vertices@, v) by {
                                if v == other {
                                    assert(stack@[stack_then.len() as int] == v);
                                } else if stack_then.contains(v) {
                                    let s = choose|s: int|
                                        0 <= s < stack_then.len() && stack_then[s] == v;
                                    assert(stack@[s] == v);
                                }
                            }
                        }
                    }
                }
                k += 1;
            }
            proof {
                assert forall|e: int|
                    #![trigger shape.edges[e]]
                    0 <= e < shape.edges.len() && shape.touches(e, u) && slack(
                        ranks@,
                        min_len,
                        shape.edges[e].0,
                        shape.edges[e].1,
                    ) == 0 implies vertices@.contains(shape.edges[e].0) && vertices@.contains(
                    shape.edges[e].1,
                ) by {
                    assert(e < graph_edges.len() <= usize::MAX);
                    assert(touching@.contains(e as usize));
                }
            }
        }
        let tree = TightTree { vertices, edges, members };
        proof {
            let inside = tree@.vertices.to_set();
            assert forall|v: usize| connected(tight, root, v) implies tree@.vertices.contains(
                v,
            ) by {
                lemma_closed_set_holds_connected(tight, inside, root, v);
            }
        }
        tree
    }
}

} // verus!
