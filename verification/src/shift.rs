//! Moving a tight tree along an edge that leaves it, and what the move
//! keeps.

use crate::connect::closed_under;
use crate::connect::connected;
use crate::connect::lemma_closed_set_holds_connected;
use crate::connect::lemma_connected_carries_over;
use crate::connect::lemma_connected_one_further;
use crate::connect::lemma_connected_to_itself;
use crate::graph::Shape;
use crate::rank::banded;
use crate::rank::covers;
use crate::rank::feasible;
use crate::rank::shifted;
use crate::rank::slack;
use crate::tree::is_tight_tree;
use crate::tree::lemma_room_for_one_more;
use crate::tree::spans_tight_component;
use crate::tree::tight_edges;
use vstd::prelude::*;

verus! {

/// The slack of edge `e` of the graph.
pub open spec fn edge_slack(shape: Shape, ranks: Map<usize, isize>, min_len: usize, e: int) -> int {
    slack(ranks, min_len, shape.edges[e].0, shape.edges[e].1)
}

/// Edge `e` has exactly one of its ends among `inside`.
pub open spec fn crosses(shape: Shape, inside: Seq<usize>, e: int) -> bool {
    inside.contains(shape.edges[e].0) != inside.contains(shape.edges[e].1)
}

/// Edge `e` is the first among the edges of least slack that cross the
/// border of `inside`.
pub open spec fn is_least_crossing(
    shape: Shape,
    ranks: Map<usize, isize>,
    min_len: usize,
    inside: Seq<usize>,
    e: int,
) -> bool {
    &&& 0 <= e < shape.edges.len()
    &&& crosses(shape, inside, e)
    &&& forall|d: int|
        #![trigger shape.edges[d]]
        0 <= d < shape.edges.len() && crosses(shape, inside, d) ==> {
            &&& edge_slack(shape, ranks, min_len, e) <= edge_slack(shape, ranks, min_len, d)
            &&& d < e ==> edge_slack(shape, ranks, min_len, e) < edge_slack(
                shape,
                ranks,
                min_len,
                d,
            )
        }
}

/// How far the tree moves along crossing edge `e`: by the slack of the
/// edge, upwards where the tail is in the tree, downwards where the head is.
pub open spec fn shift_along(
    shape: Shape,
    ranks: Map<usize, isize>,
    min_len: usize,
    inside: Seq<usize>,
    e: int,
) -> int {
    if inside.contains(shape.edges[e].0) {
        edge_slack(shape, ranks, min_len, e)
    } else {
        -edge_slack(shape, ranks, min_len, e)
    }
}

/// How far tightening may move a rank: twice the number of vertices, and
/// once more, times the minimum length.
pub open spec fn reach(count: nat, min_len: usize) -> int {
    (2 * count + 1) * min_len
}

/// Moving a set of vertices along its least crossing edge keeps every edge
/// long enough and makes that edge tight.
pub proof fn lemma_shift_keeps_feasible(
    shape: Shape,
    ranks: Map<usize, isize>,
    min_len: usize,
    inside: Seq<usize>,
    e: int,
)
    requires
        shape.wf(),
        covers(ranks, shape),
        feasible(ranks, min_len, shape),
        is_least_crossing(shape, ranks, min_len, inside, e),
        forall|v: usize|
            inside.contains(v) && ranks.contains_key(v) ==> isize::MIN <= ranks[v] + shift_along(
                shape,
                ranks,
                min_len,
                inside,
                e,
            ) <= isize::MAX,
    ensures
        feasible(
            shifted(ranks, inside.to_set(), shift_along(shape, ranks, min_len, inside, e)),
            min_len,
            shape,
        ),
        edge_slack(
            shape,
            shifted(ranks, inside.to_set(), shift_along(shape, ranks, min_len, inside, e)),
            min_len,
            e,
        ) == 0,
{
}

/// Vertex `i` of a tight tree is at most `i` minimum lengths away from the
/// root, in rank.
pub proof fn lemma_tree_depth(
    tree: Shape,
    shape: Shape,
    ranks: Map<usize, isize>,
    min_len: usize,
    i: int,
)
    requires
        is_tight_tree(tree, shape, ranks, min_len),
        0 <= i < tree.vertices.len(),
    ensures
        ranks[tree.vertices[i]] - ranks[tree.vertices[0]] <= i * min_len,
        ranks[tree.vertices[0]] - ranks[tree.vertices[i]] <= i * min_len,
    decreases i,
{
    if i == 0 {
    } else {
        let j = choose|j: int|
            0 <= j <= i - 1 && {
                ||| tree.edges[i - 1] == (#[trigger] tree.vertices[j], tree.vertices[i - 1 + 1])
                ||| tree.edges[i - 1] == (tree.vertices[i - 1 + 1], tree.vertices[j])
            };
        lemma_tree_depth(tree, shape, ranks, min_len, j);
        assert(j * min_len + min_len <= i * min_len) by (nonlinear_arith)
            requires
                0 <= j < i,
                min_len >= 0,
        ;
    }
}

/// Moving a tight tree along its least crossing edge leaves every rank of
/// the tree within `isize::MAX / 2 - min_len` of 0, provided that the end
/// of the edge outside the tree lies within `isize::MAX / 2 - reach` of 0.
pub(crate) proof fn lemma_shift_stays_banded(
    shape: Shape,
    tree: Shape,
    ranks: Map<usize, isize>,
    min_len: usize,
    e: int,
    v: usize,
)
    requires
        shape.wf(),
        covers(ranks, shape),
        feasible(ranks, min_len, shape),
        is_tight_tree(tree, shape, ranks, min_len),
        forall|w: usize| tree.vertices.contains(w) ==> shape.vertices.contains(w),
        is_least_crossing(shape, ranks, min_len, tree.vertices, e),
        tree.vertices.contains(v),
        ({
            let outer = if tree.vertices.contains(shape.edges[e].0) {
                shape.edges[e].1
            } else {
                shape.edges[e].0
            };
            let room = isize::MAX / 2 - reach(shape.vertices.len(), min_len);
            -room <= ranks[outer] <= room
        }),
    ensures
        -(isize::MAX / 2 - min_len) <= ranks[v] + shift_along(
            shape,
            ranks,
            min_len,
            tree.vertices,
            e,
        ) <= isize::MAX / 2 - min_len,
{
    let tail = shape.edges[e].0;
    let head = shape.edges[e].1;
    let inner = if tree.vertices.contains(tail) {
        tail
    } else {
        head
    };
    let outer = if tree.vertices.contains(tail) {
        head
    } else {
        tail
    };
    let count = shape.vertices.len() as int;
    lemma_room_for_one_more(tree.vertices, outer, shape.vertices);
    let i = choose|i: int| 0 <= i < tree.vertices.len() && tree.vertices[i] == v;
    let j = choose|j: int| 0 <= j < tree.vertices.len() && tree.vertices[j] == inner;
    lemma_tree_depth(tree, shape, ranks, min_len, i);
    lemma_tree_depth(tree, shape, ranks, min_len, j);
    assert(i * min_len + j * min_len + min_len <= 2 * count * min_len) by (nonlinear_arith)
        requires
            0 <= i <= count - 2,
            0 <= j <= count - 2,
            min_len >= 0,
    ;
    assert((2 * count + 1) * min_len == 2 * count * min_len + min_len) by (nonlinear_arith);
}

/// Before a tight tree moves along its least crossing edge: the slack of
/// the edge is not negative, and the move keeps every rank of the tree within
/// `isize::MAX / 2 - min_len` of 0.
pub(crate) proof fn lemma_move_is_safe(
    shape: Shape,
    tree: Shape,
    ranks: Map<usize, isize>,
    given: Map<usize, isize>,
    min_len: usize,
    done: Set<usize>,
    e: int,
)
    requires
        shape.wf(),
        covers(ranks, shape),
        covers(given, shape),
        feasible(ranks, min_len, shape),
        banded(given, isize::MAX / 2 - reach(shape.vertices.len(), min_len)),
        closed_under(shape.edge_set(), done),
        is_tight_tree(tree, shape, ranks, min_len),
        forall|v: usize| tree.vertices.contains(v) ==> shape.vertices.contains(v),
        forall|v: usize| tree.vertices.contains(v) ==> !done.contains(v),
        forall|v: usize|
            !done.contains(v) && !tree.vertices.contains(v) && ranks.contains_key(v) ==> ranks[v]
                == given[v],
        is_least_crossing(shape, ranks, min_len, tree.vertices, e),
    ensures
        edge_slack(shape, ranks, min_len, e) >= 0,
        ranks.contains_key(shape.edges[e].0),
        ranks.contains_key(shape.edges[e].1),
        forall|v: usize|
            tree.vertices.contains(v) ==> -(isize::MAX / 2 - min_len) <= #[trigger] ranks[v]
                + shift_along(shape, ranks, min_len, tree.vertices, e) <= isize::MAX / 2 - min_len,
{
    let tail = shape.edges[e].0;
    let head = shape.edges[e].1;
    assert(shape.edge_set().contains((tail, head)));
    assert forall|v: usize| tree.vertices.contains(v) implies -(isize::MAX / 2 - min_len)
        <= #[trigger] ranks[v] + shift_along(shape, ranks, min_len, tree.vertices, e)
        <= isize::MAX / 2 - min_len by {
        lemma_shift_stays_banded(shape, tree, ranks, min_len, e, v);
    }
}

/// Tight edges stay connected where a change of ranks keeps tight every
/// tight edge inside a set that tight edges do not leave.
pub proof fn lemma_tight_connection_survives(
    shape: Shape,
    ranks: Map<usize, isize>,
    after: Map<usize, isize>,
    min_len: usize,
    inside: Set<usize>,
    a: usize,
    b: usize,
)
    requires
        closed_under(tight_edges(shape, ranks, min_len), inside),
        forall|x: usize, y: usize|
            #![trigger shape.edges.contains((x, y))]
            shape.edges.contains((x, y)) && inside.contains(x) && inside.contains(y) && slack(
                ranks,
                min_len,
                x,
                y,
            ) == 0 ==> slack(after, min_len, x, y) == 0,
        inside.contains(a),
        connected(tight_edges(shape, ranks, min_len), a, b),
    ensures
        connected(tight_edges(shape, after, min_len), a, b),
{
    let before = tight_edges(shape, ranks, min_len);
    let then = tight_edges(shape, after, min_len);
    lemma_connected_carries_over(before, then, inside, a, b);
}

/// The vertices that tight edges connect to a root are a set that tight
/// edges do not leave.
pub proof fn lemma_component_is_closed(
    tree: Shape,
    shape: Shape,
    ranks: Map<usize, isize>,
    min_len: usize,
    root: usize,
)
    requires
        spans_tight_component(tree, shape, ranks, min_len, root),
    ensures
        closed_under(tight_edges(shape, ranks, min_len), tree.vertices.to_set()),
        tree.vertices.contains(root),
{
    let tight = tight_edges(shape, ranks, min_len);
    lemma_connected_to_itself(tight, root);
    assert forall|a: usize, b: usize|
        #![trigger tight.contains((a, b))]
        tight.contains((a, b)) implies (tree.vertices.to_set().contains(a)
        <==> tree.vertices.to_set().contains(b)) by {
        if tree.vertices.contains(a) {
            lemma_connected_one_further(tight, root, a, b);
        }
        if tree.vertices.contains(b) {
            lemma_connected_one_further(tight, root, b, a);
        }
    }
}

/// A set that the edges of the graph do not leave is not left by its tight
/// edges either.
pub(crate) proof fn lemma_closed_for_tight_edges(
    shape: Shape,
    ranks: Map<usize, isize>,
    min_len: usize,
    inside: Set<usize>,
)
    requires
        closed_under(shape.edge_set(), inside),
    ensures
        closed_under(tight_edges(shape, ranks, min_len), inside),
{
    let tight = tight_edges(shape, ranks, min_len);
    assert forall|a: usize, b: usize|
        #![trigger tight.contains((a, b))]
        tight.contains((a, b)) implies (inside.contains(a) <==> inside.contains(b)) by {
        assert(shape.edge_set().contains((a, b)));
    }
}

/// A tight tree whose root lies outside a set that no edge leaves lies
/// outside that set altogether.
pub(crate) proof fn lemma_tree_avoids(
    shape: Shape,
    ranks: Map<usize, isize>,
    min_len: usize,
    done: Set<usize>,
    tree: Shape,
    root: usize,
)
    requires
        closed_under(shape.edge_set(), done),
        !done.contains(root),
        spans_tight_component(tree, shape, ranks, min_len, root),
    ensures
        forall|v: usize| tree.vertices.contains(v) ==> !done.contains(v),
{
    let tight = tight_edges(shape, ranks, min_len);
    let rest = done.complement();
    lemma_closed_for_tight_edges(shape, ranks, min_len, done);
    assert forall|v: usize| tree.vertices.contains(v) implies !done.contains(v) by {
        lemma_closed_set_holds_connected(tight, rest, root, v);
    }
}

/// After a tight tree was moved along its least crossing edge, the tight
/// tree of the same root holds the old tree and one vertex more.
pub proof fn lemma_tree_grows(
    shape: Shape,
    ranks: Map<usize, isize>,
    after: Map<usize, isize>,
    min_len: usize,
    tree: Shape,
    next: Shape,
    root: usize,
    e: int,
)
    requires
        shape.wf(),
        covers(ranks, shape),
        feasible(ranks, min_len, shape),
        tree.vertices.no_duplicates(),
        next.vertices.no_duplicates(),
        spans_tight_component(tree, shape, ranks, min_len, root),
        spans_tight_component(next, shape, after, min_len, root),
        is_least_crossing(shape, ranks, min_len, tree.vertices, e),
        after == shifted(
            ranks,
            tree.vertices.to_set(),
            shift_along(shape, ranks, min_len, tree.vertices, e),
        ),
        forall|v: usize|
            tree.vertices.contains(v) && ranks.contains_key(v) ==> isize::MIN <= ranks[v]
                + shift_along(shape, ranks, min_len, tree.vertices, e) <= isize::MAX,
    ensures
        forall|v: usize| tree.vertices.contains(v) ==> next.vertices.contains(v),
        next.vertices.len() > tree.vertices.len(),
{
    let inside = tree.vertices.to_set();
    let then = tight_edges(shape, after, min_len);
    let tail = shape.edges[e].0;
    let head = shape.edges[e].1;
    let inner = if tree.vertices.contains(tail) {
        tail
    } else {
        head
    };
    let outer = if tree.vertices.contains(tail) {
        head
    } else {
        tail
    };
    lemma_component_is_closed(tree, shape, ranks, min_len, root);
    assert forall|v: usize| tree.vertices.contains(v) implies next.vertices.contains(v) by {
        lemma_tight_connection_survives(shape, ranks, after, min_len, inside, root, v);
    }
    lemma_connected_one_further(then, root, inner, outer);
    lemma_room_for_one_more(tree.vertices, outer, next.vertices);
}

} // verus!
