//! The directed graphs that are ranked: how `petgraph` hands them over, and
//! the plain shape of such a graph that the ranking algorithms work on.

use petgraph::algo::Cycle;
use petgraph::graph::NodeIndex;
use petgraph::stable_graph::StableDiGraph;
use petgraph::stable_graph::StableGraph;
use petgraph::visit::EdgeRef;
use petgraph::visit::IntoEdgeReferences;
use petgraph::Directed;
use std::collections::HashMap;
use vstd::prelude::*;

verus! {

broadcast use vstd::std_specs::hash::group_hash_axioms;

/// The mathematical content of a directed graph: the identifiers of its
/// vertices and its edges as (tail, head) pairs.
pub struct Shape {
    pub vertices: Seq<usize>,
    pub edges: Seq<(usize, usize)>,
}

impl Shape {
    /// No vertex is listed twice and every edge joins two vertices.
    pub open spec fn wf(self) -> bool {
        &&& self.vertices.no_duplicates()
        &&& forall|e: int|
            #![trigger self.edges[e]]
            0 <= e < self.edges.len() ==> self.vertices.contains(self.edges[e].0)
                && self.vertices.contains(self.edges[e].1)
    }

    /// The edges as a set of (tail, head) pairs.
    pub open spec fn edge_set(self) -> Set<(usize, usize)> {
        self.edges.to_set()
    }

    /// `order` lists every vertex exactly once and the tail of each edge
    /// before its head.
    pub open spec fn is_topological_order(self, order: Seq<usize>) -> bool {
        &&& order.no_duplicates()
        &&& forall|v: usize| order.contains(v) <==> self.vertices.contains(v)
        &&& forall|e: int, i: int, j: int|
            #![trigger self.edges[e], order[i], order[j]]
            0 <= e < self.edges.len() && 0 <= i < order.len() && 0 <= j < order.len()
                && order[i] == self.edges[e].0 && order[j] == self.edges[e].1 ==> i < j
    }

    /// `walk` follows edges from tail to head, over at least one edge.
    pub open spec fn is_directed_walk(self, walk: Seq<usize>) -> bool {
        &&& walk.len() >= 2
        &&& forall|k: int|
            0 <= k < walk.len() - 1 ==> self.edges.contains((#[trigger] walk[k], walk[k + 1]))
    }

    /// Some directed walk over at least one edge returns to where it began.
    pub open spec fn has_cycle(self) -> bool {
        exists|walk: Seq<usize>| self.is_directed_walk(walk) && walk[0] == walk[walk.len() - 1]
    }

    /// Edge `e` has `v` as its tail or as its head.
    pub open spec fn touches(self, e: int, v: usize) -> bool {
        self.edges[e].0 == v || self.edges[e].1 == v
    }
}

/// Along a directed walk the positions in a topological order grow.
proof fn lemma_walk_ascends(shape: Shape, order: Seq<usize>, walk: Seq<usize>, k: int)
    requires
        shape.wf(),
        shape.is_topological_order(order),
        shape.is_directed_walk(walk),
        0 <= k < walk.len(),
    ensures
        order.contains(walk[0]),
        order.contains(walk[k]),
        k > 0 ==> forall|i: int, j: int|
            0 <= i < order.len() && 0 <= j < order.len() && order[i] == walk[0] && order[j]
                == walk[k] ==> i < j,
    decreases k,
{
    if k > 0 {
        lemma_walk_ascends(shape, order, walk, k - 1);
    }
}

/// A graph whose vertices can be put in topological order has no cycle.
pub proof fn lemma_ordered_graph_is_acyclic(shape: Shape, order: Seq<usize>)
    requires
        shape.wf(),
        shape.is_topological_order(order),
    ensures
        !shape.has_cycle(),
{
    if shape.has_cycle() {
        let walk = choose|walk: Seq<usize>|
            shape.is_directed_walk(walk) && walk[0] == walk[walk.len() - 1];
        lemma_walk_ascends(shape, order, walk, walk.len() - 1);
    }
}

/// `petgraph`'s `StableGraph`. Nothing inside a value of it is seen here:
/// what a graph holds goes by the names `graph_vertices` and `graph_edges`.
#[verifier::external_type_specification]
#[verifier::external_body]
#[verifier::reject_recursive_types(N)]
#[verifier::reject_recursive_types(E)]
#[verifier::reject_recursive_types(Ty)]
#[verifier::reject_recursive_types(Ix)]
pub struct ExStableGraph<N, E, Ty, Ix>(StableGraph<N, E, Ty, Ix>);

/// `petgraph`'s marker for graphs whose edges have a direction.
#[verifier::external_type_specification]
#[verifier::external_body]
pub struct ExDirected(Directed);

/// `petgraph`'s node identifier.
#[verifier::external_type_specification]
#[verifier::external_body]
#[verifier::reject_recursive_types(Ix)]
pub struct ExNodeIndex<Ix>(NodeIndex<Ix>);

/// The error of `petgraph::algo::toposort`: a node on a cycle.
#[verifier::external_type_specification]
#[verifier::external_body]
#[verifier::reject_recursive_types(N)]
pub struct ExCycle<N>(Cycle<N>);

/// The identifiers of the vertices of `g`, in the order in which
/// `node_indices` yields them.
pub uninterp spec fn graph_vertices(g: StableDiGraph<Option<isize>, usize>) -> Seq<usize>;

/// The edges of `g` as (tail, head) pairs of vertex identifiers, in the
/// order in which `edge_references` yields them.
pub uninterp spec fn graph_edges(g: StableDiGraph<Option<isize>, usize>) -> Seq<(usize, usize)>;

/// The shape of a `petgraph` graph.
pub open spec fn graph_shape(g: StableDiGraph<Option<isize>, usize>) -> Shape {
    Shape { vertices: graph_vertices(g), edges: graph_edges(g) }
}

/// Calls `StableGraph::node_indices` and takes the `index` of each node.
/// The iterator walks the node slots once and yields the occupied ones, so
/// no identifier comes twice.
#[verifier::external_body]
fn vertex_ids(g: &StableDiGraph<Option<isize>, usize>) -> (ids: Vec<usize>)
    ensures
        ids@ == graph_vertices(*g),
        ids@.no_duplicates(),
{
    g.node_indices().map(|v| v.index()).collect()
}

/// Calls `edge_references` on the graph and takes the `index` of the source
/// and of the target of each edge. An edge of a `StableGraph` joins two of
/// its nodes: `add_edge` panics on an endpoint that is not in the graph, and
/// `remove_node` removes every edge at the node that it removes.
#[verifier::external_body]
fn edge_pairs(g: &StableDiGraph<Option<isize>, usize>) -> (pairs: Vec<(usize, usize)>)
    ensures
        pairs@ == graph_edges(*g),
        forall|e: int|
            #![trigger pairs@[e]]
            0 <= e < pairs@.len() ==> graph_vertices(*g).contains(pairs@[e].0)
                && graph_vertices(*g).contains(pairs@[e].1),
{
    g.edge_references().map(|e| (e.source().index(), e.target().index())).collect()
}

/// Calls `petgraph::algo::toposort` without a workspace and takes the
/// `index` of each node. On success every node stands once in the result,
/// before all its successors; the error comes only where the search met a
/// self loop or two nodes that reach each other, which is a cycle.
#[verifier::external_body]
pub(crate) fn topological_order(g: &StableDiGraph<Option<isize>, usize>) -> (sorted: Result<
    Vec<usize>,
    Cycle<NodeIndex>,
>)
    ensures
        sorted matches Ok(order) ==> graph_shape(*g).is_topological_order(order@),
        sorted is Err ==> graph_shape(*g).has_cycle(),
{
    petgraph::algo::toposort(g, None).map(|order| order.into_iter().map(|v| v.index()).collect())
}

/// A directed graph laid out for ranking: its vertices, its edges, and for
/// each vertex the edges that touch it.
#[derive(Debug)]
pub struct Digraph {
    vertices: Vec<usize>,
    edges: Vec<(usize, usize)>,
    slots: HashMap<usize, usize>,
    incident: Vec<Vec<usize>>,
}

impl View for Digraph {
    type V = Shape;

    closed spec fn view(&self) -> Shape {
        Shape { vertices: self.vertices@, edges: self.edges@ }
    }
}

impl Digraph {
    /// The lookup tables agree with the vertex and edge lists.
    pub closed spec fn indexed(&self) -> bool {
        &&& self.incident.len() == self.vertices.len()
        &&& forall|v: usize| self.slots@.contains_key(v) <==> self.vertices@.contains(v)
        &&& forall|i: int|
            0 <= i < self.vertices.len() ==> self.slots@.contains_key(#[trigger] self.vertices[i])
                && self.slots@[self.vertices[i]] == i
        &&& forall|i: int, k: int|
            0 <= i < self.incident.len() && 0 <= k < self.incident[i].len() ==> 0
                <= #[trigger] self.incident[i][k] < self.edges.len() && self@.touches(
                self.incident[i][k] as int,
                self.vertices[i],
            )
        &&& forall|i: int, a: int, b: int|
            0 <= i < self.incident.len() && 0 <= a < b < self.incident[i].len()
                ==> #[trigger] self.incident[i][a] < #[trigger] self.incident[i][b]
        &&& forall|e: int|
            #![trigger self.edges[e]]
            0 <= e < self.edges.len() ==> {
                &&& self.incident[self.slots@[self.edges[e].0] as int]@.contains(e as usize)
                &&& self.incident[self.slots@[self.edges[e].1] as int]@.contains(e as usize)
            }
    }

    /// The graph is well formed and its lookup tables are consistent.
    pub open spec fn wf(&self) -> bool {
        self@.wf() && self.indexed()
    }

    /// Builds the graph with the given vertices and edges. `None` where a
    /// vertex is listed twice or an edge names a vertex that is not listed.
    pub fn new(vertices: Vec<usize>, edges: Vec<(usize, usize)>) -> (made: Option<Digraph>)
        ensures
            made is Some <==> (Shape { vertices: vertices@, edges: edges@ }).wf(),
            made matches Some(g) ==> g.wf() && g@.vertices == vertices@ && g@.edges == edges@,
    {
        let ghost shape = Shape { vertices: vertices@, edges: edges@ };
        let mut slots: HashMap<usize, usize> = HashMap::new();
        let mut incident: Vec<Vec<usize>> = Vec::new();
        let mut i: usize = 0;
        while i < vertices.len()
            invariant
                i <= vertices.len(),
                shape == (Shape { vertices: vertices@, edges: edges@ }),
                incident.len() == i,
                forall|j: int| 0 <= j < i ==> (#[trigger] incident[j]).len() == 0,
                forall|v: usize|
                    slots@.contains_key(v) <==> exists|j: int|
                        0 <= j < i && #[trigger] vertices[j] == v,
                forall|j: int|
                    0 <= j < i ==> slots@.contains_key(#[trigger] vertices[j])
                        && slots@[vertices[j]] == j,
            decreases vertices.len() - i,
        {
            let v = vertices[i];
            if slots.contains_key(&v) {
                proof {
                    let j = choose|j: int| 0 <= j < i && vertices[j] == v;
                    assert(vertices@[j] == vertices@[i as int]);
                }
                return None;
            }
            slots.insert(v, i);
            incident.push(Vec::new());
            i += 1;
        }
        let mut e: usize = 0;
        while e < edges.len()
            invariant
                e <= edges.len(),
                shape == (Shape { vertices: vertices@, edges: edges@ }),
                incident.len() == vertices.len(),
                vertices@.no_duplicates(),
                forall|v: usize| slots@.contains_key(v) <==> vertices@.contains(v),
                forall|j: int|
                    0 <= j < vertices.len() ==> slots@.contains_key(#[trigger] vertices[j])
                        && slots@[vertices[j]] == j,
                forall|d: int|
                    #![trigger edges[d]]
                    0 <= d < e ==> vertices@.contains(edges[d].0) && vertices@.contains(
                        edges[d].1,
                    ),
                forall|j: int, k: int|
                    0 <= j < incident.len() && 0 <= k < incident[j].len() ==> 0
                        <= #[trigger] incident[j][k] < e && shape.touches(
                        incident[j][k] as int,
                        vertices[j],
                    ),
                forall|j: int, a: int, b: int|
                    0 <= j < incident.len() && 0 <= a < b < incident[j].len()
                        ==> #[trigger] incident[j][a] < #[trigger] incident[j][b],
                forall|d: int|
                    #![trigger edges[d]]
                    0 <= d < e ==> incident[slots@[edges[d].0] as int]@.contains(d as usize)
                        && incident[slots@[edges[d].1] as int]@.contains(d as usize),
            decreases edges.len() - e,
        {
            let (tail, head) = edges[e];
            let at_tail = match slots.get(&tail) {
                Some(slot) => *slot,
                None => {
                    assert(!shape.wf()) by {
                        assert(shape.edges[e as int].0 == tail);
                    }
                    return None;
                },
            };
            let at_head = match slots.get(&head) {
                Some(slot) => *slot,
                None => {
                    assert(!shape.wf()) by {
                        assert(shape.edges[e as int].1 == head);
                    }
                    return None;
                },
            };
            proof {
                assert(vertices@.contains(tail) && vertices@.contains(head));
                let jt = choose|j: int| 0 <= j < vertices@.len() && vertices@[j] == tail;
                let jh = choose|j: int| 0 <= j < vertices@.len() && vertices@[j] == head;
                assert(jt == at_tail && jh == at_head);
            }
            let ghost before = incident@;
            Self::note_edge(&mut incident, at_tail, e);
            if at_head != at_tail {
                Self::note_edge(&mut incident, at_head, e);
            }
            proof {
                assert forall|j: int, k: int|
                    0 <= j < before.len() && 0 <= k < before[j].len() implies k
                    < incident[j].len() && #[trigger] incident[j][k] == before[j][k] by {}
                assert forall|d: int|
                    #![trigger edges[d]]
                    0 <= d < e + 1 implies incident[slots@[edges[d].0] as int]@.contains(
                    d as usize,
                ) && incident[slots@[edges[d].1] as int]@.contains(d as usize) by {
                    let a = slots@[edges[d].0] as int;
                    let b = slots@[edges[d].1] as int;
                    if d < e {
                        let ia = choose|j: int|
                            0 <= j < vertices@.len() && vertices@[j] == edges[d].0;
                        let ib = choose|j: int|
                            0 <= j < vertices@.len() && vertices@[j] == edges[d].1;
                        assert(ia == a && ib == b);
                        let ka = choose|k: int| 0 <= k < before[a]@.len() && before[a]@[k] == d;
                        assert(incident[a][ka] == d);
                        let kb = choose|k: int| 0 <= k < before[b]@.len() && before[b]@[k] == d;
                        assert(incident[b][kb] == d);
                    } else {
                        assert(incident[a][incident[a].len() - 1] == e);
                        assert(incident[b][incident[b].len() - 1] == e);
                    }
                }
                assert forall|j: int, a: int, b: int|
                    0 <= j < incident.len() && 0 <= a < b < incident[j].len()
                        implies #[trigger] incident[j][a] < #[trigger] incident[j][b] by {}
                assert forall|j: int, k: int|
                    0 <= j < incident.len() && 0 <= k < incident[j].len() implies 0
                    <= #[trigger] incident[j][k] < e + 1 && shape.touches(
                    incident[j][k] as int,
                    vertices[j],
                ) by {}
            }
            e += 1;
        }
        Some(Digraph { vertices, edges, slots, incident })
    }

    /// Appends edge `e` to the list of the vertex at `slot`.
    fn note_edge(incident: &mut Vec<Vec<usize>>, slot: usize, e: usize)
        requires
            slot < old(incident).len(),
        ensures
            final(incident).len() == old(incident).len(),
            final(incident)[slot as int]@ == old(incident)[slot as int]@.push(e),
            forall|j: int|
                0 <= j < old(incident).len() && j != slot ==> #[trigger] final(incident)[j]
                    == old(incident)[j],
    {
        incident[slot].push(e);
    }

    /// Takes the vertices and the edges of a `petgraph` graph.
    pub fn from_graph(g: &StableDiGraph<Option<isize>, usize>) -> (graph: Digraph)
        ensures
            graph.wf(),
            graph@ == graph_shape(*g),
    {
        let vertices = vertex_ids(g);
        let edges = edge_pairs(g);
        match Digraph::new(vertices, edges) {
            Some(graph) => graph,
            None => vstd::pervasive::unreached(),
        }
    }

    /// The vertices, in the order in which the graph lists them.
    pub fn vertices(&self) -> (vertices: &Vec<usize>)
        ensures
            vertices@ == self@.vertices,
    {
        &self.vertices
    }

    /// The edges as (tail, head) pairs, in the order in which the graph
    /// lists them.
    pub fn edges(&self) -> (edges: &Vec<(usize, usize)>)
        ensures
            edges@ == self@.edges,
    {
        &self.edges
    }

    /// Whether `v` is a vertex of the graph.
    pub fn contains_vertex(&self, v: usize) -> (found: bool)
        requires
            self.wf(),
        ensures
            found == self@.vertices.contains(v),
    {
        self.slots.contains_key(&v)
    }

    /// The positions in `edges` of the edges that have `v` as an endpoint,
    /// in ascending order.
    pub fn incident_edges(&self, v: usize) -> (touching: &Vec<usize>)
        requires
            self.wf(),
            self@.vertices.contains(v),
        ensures
            forall|k: int|
                0 <= k < touching.len() ==> 0 <= #[trigger] touching[k] < self@.edges.len()
                    && self@.touches(touching[k] as int, v),
            forall|e: usize|
                e < self@.edges.len() && self@.touches(e as int, v) ==> touching@.contains(e),
            forall|a: int, b: int|
                0 <= a < b < touching.len() ==> #[trigger] touching[a] < #[trigger] touching[b],
    {
        let slot = match self.slots.get(&v) {
            Some(slot) => *slot,
            None => vstd::pervasive::unreached(),
        };
        &self.incident[slot]
    }
}

} // verus!
