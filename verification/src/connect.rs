//! Connectedness over a set of edges, each usable in both directions.

use vstd::prelude::*;

verus! {

/// Some edge of `edges` joins `a` and `b`, in either direction.
pub open spec fn joined(edges: Set<(usize, usize)>, a: usize, b: usize) -> bool {
    edges.contains((a, b)) || edges.contains((b, a))
}

/// Each vertex of `walk` is joined to the next one.
pub open spec fn is_walk(edges: Set<(usize, usize)>, walk: Seq<usize>) -> bool {
    &&& walk.len() >= 1
    &&& forall|k: int| 0 <= k < walk.len() - 1 ==> joined(edges, #[trigger] walk[k], walk[k + 1])
}

/// `walk` leads from `a` to `b`.
pub open spec fn leads(edges: Set<(usize, usize)>, walk: Seq<usize>, a: usize, b: usize) -> bool {
    is_walk(edges, walk) && walk[0] == a && walk[walk.len() - 1] == b
}

/// Some walk leads from `a` to `b`. Every vertex is connected to itself.
pub open spec fn connected(edges: Set<(usize, usize)>, a: usize, b: usize) -> bool {
    exists|walk: Seq<usize>| leads(edges, walk, a, b)
}

/// No edge of `edges` has one endpoint inside `inside` and one outside.
pub open spec fn closed_under(edges: Set<(usize, usize)>, inside: Set<usize>) -> bool {
    forall|a: usize, b: usize|
        #![trigger edges.contains((a, b))]
        edges.contains((a, b)) ==> (inside.contains(a) <==> inside.contains(b))
}

/// Every vertex is connected to itself.
pub proof fn lemma_connected_to_itself(edges: Set<(usize, usize)>, a: usize)
    ensures
        connected(edges, a, a),
{
    assert(leads(edges, seq![a], a, a));
}

/// A connection can be prolonged by one more edge.
pub proof fn lemma_connected_one_further(edges: Set<(usize, usize)>, a: usize, b: usize, c: usize)
    requires
        connected(edges, a, b),
        joined(edges, b, c),
    ensures
        connected(edges, a, c),
{
    let walk = choose|walk: Seq<usize>| leads(edges, walk, a, b);
    let longer = walk.push(c);
    assert(leads(edges, longer, a, c));
}

/// A walk can be followed after another one that ends where it begins.
proof fn lemma_walks_chain(
    edges: Set<(usize, usize)>,
    first: Seq<usize>,
    second: Seq<usize>,
    a: usize,
    b: usize,
    c: usize,
)
    requires
        leads(edges, first, a, b),
        leads(edges, second, b, c),
    ensures
        connected(edges, a, c),
    decreases second.len(),
{
    if second.len() == 1 {
    } else {
        let next = second[1];
        let longer = first.push(next);
        let rest = second.subrange(1, second.len() as int);
        lemma_walks_chain(edges, longer, rest, a, next, c);
    }
}

/// Connectedness is transitive.
pub proof fn lemma_connected_transitive(edges: Set<(usize, usize)>, a: usize, b: usize, c: usize)
    requires
        connected(edges, a, b),
        connected(edges, b, c),
    ensures
        connected(edges, a, c),
{
    let first = choose|walk: Seq<usize>| leads(edges, walk, a, b);
    let second = choose|walk: Seq<usize>| leads(edges, walk, b, c);
    lemma_walks_chain(edges, first, second, a, b, c);
}

/// Connectedness is symmetric.
pub proof fn lemma_connected_symmetric(edges: Set<(usize, usize)>, a: usize, b: usize)
    requires
        connected(edges, a, b),
    ensures
        connected(edges, b, a),
{
    let walk = choose|walk: Seq<usize>| leads(edges, walk, a, b);
    let back = walk.reverse();
    assert(leads(edges, back, b, a));
}

/// A walk that starts inside a closed set ends inside it.
proof fn lemma_walk_stays_inside(
    edges: Set<(usize, usize)>,
    inside: Set<usize>,
    walk: Seq<usize>,
    k: int,
)
    requires
        is_walk(edges, walk),
        closed_under(edges, inside),
        inside.contains(walk[0]),
        0 <= k < walk.len(),
    ensures
        inside.contains(walk[k]),
    decreases k,
{
    if k > 0 {
        lemma_walk_stays_inside(edges, inside, walk, k - 1);
    }
}

/// A closed set holds everything that is connected to one of its vertices.
pub proof fn lemma_closed_set_holds_connected(
    edges: Set<(usize, usize)>,
    inside: Set<usize>,
    a: usize,
    b: usize,
)
    requires
        closed_under(edges, inside),
        inside.contains(a),
        connected(edges, a, b),
    ensures
        inside.contains(b),
{
    let walk = choose|walk: Seq<usize>| leads(edges, walk, a, b);
    lemma_walk_stays_inside(edges, inside, walk, walk.len() - 1);
}

/// A walk inside a closed set is a walk over any edge set that has the
/// edges of the first set that lie inside.
proof fn lemma_walk_carries_over(
    edges: Set<(usize, usize)>,
    others: Set<(usize, usize)>,
    inside: Set<usize>,
    walk: Seq<usize>,
)
    requires
        is_walk(edges, walk),
        closed_under(edges, inside),
        inside.contains(walk[0]),
        forall|a: usize, b: usize|
            #![trigger edges.contains((a, b))]
            edges.contains((a, b)) && inside.contains(a) ==> others.contains((a, b)),
    ensures
        is_walk(others, walk),
{
    assert forall|k: int| 0 <= k < walk.len() - 1 implies joined(
        others,
        #[trigger] walk[k],
        walk[k + 1],
    ) by {
        lemma_walk_stays_inside(edges, inside, walk, k + 1);
    }
}

/// What is connected inside a closed set stays connected over any edge set
/// that has the edges of the first set that lie inside.
pub proof fn lemma_connected_carries_over(
    edges: Set<(usize, usize)>,
    others: Set<(usize, usize)>,
    inside: Set<usize>,
    a: usize,
    b: usize,
)
    requires
        closed_under(edges, inside),
        inside.contains(a),
        connected(edges, a, b),
        forall|x: usize, y: usize|
            #![trigger edges.contains((x, y))]
            edges.contains((x, y)) && inside.contains(x) ==> others.contains((x, y)),
    ensures
        connected(others, a, b),
{
    let walk = choose|walk: Seq<usize>| leads(edges, walk, a, b);
    lemma_walk_carries_over(edges, others, inside, walk);
    assert(leads(others, walk, a, b));
}

/// Where the two ends of every edge of one set are connected over another
/// set, a walk over the first set connects its ends over the other.
proof fn lemma_walk_refines(
    edges: Set<(usize, usize)>,
    finer: Set<(usize, usize)>,
    walk: Seq<usize>,
    k: int,
)
    requires
        is_walk(edges, walk),
        0 <= k < walk.len(),
        forall|a: usize, b: usize|
            #![trigger edges.contains((a, b))]
            edges.contains((a, b)) ==> connected(finer, a, b),
    ensures
        connected(finer, walk[0], walk[k]),
    decreases k,
{
    if k == 0 {
        lemma_connected_to_itself(finer, walk[0]);
    } else {
        lemma_walk_refines(edges, finer, walk, k - 1);
        if edges.contains((walk[k - 1], walk[k])) {
        } else {
            lemma_connected_symmetric(finer, walk[k], walk[k - 1]);
        }
        lemma_connected_transitive(finer, walk[0], walk[k - 1], walk[k]);
    }
}

/// Where the two ends of every edge of one set are connected over another
/// set, whatever the first set connects the other connects too.
pub proof fn lemma_connected_refines(
    edges: Set<(usize, usize)>,
    finer: Set<(usize, usize)>,
    a: usize,
    b: usize,
)
    requires
        connected(edges, a, b),
        forall|x: usize, y: usize|
            #![trigger edges.contains((x, y))]
            edges.contains((x, y)) ==> connected(finer, x, y),
    ensures
        connected(finer, a, b),
{
    let walk = choose|walk: Seq<usize>| leads(edges, walk, a, b);
    lemma_walk_refines(edges, finer, walk, walk.len() - 1);
}

} // verus!
