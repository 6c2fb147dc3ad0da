//! Tightening: moving tight trees until tight edges span every component.

use crate::connect::lemma_closed_set_holds_connected;
use crate::forest::is_connected;
use crate::forest::lemma_component_settles;
use crate::forest::lemma_parts_fit;
use crate::forest::lemma_settled_part_is_spanned;
use crate::forest::lemma_settled_part_persists;
use crate::forest::settled_part;
use crate::forest::tightly_spanned;
use crate::graph::Digraph;
use crate::rank::banded;
use crate::rank::covers;
use crate::rank::feasible;
use crate::rank::lemma_banded_is_normalizable;
use crate::rank::normalizable;
use crate::rank::Ranks;
use crate::shift::crosses;
use crate::shift::edge_slack;
use crate::shift::is_least_crossing;
use crate::shift::lemma_move_is_safe;
use crate::shift::lemma_shift_keeps_feasible;
use crate::shift::lemma_tree_avoids;
use crate::shift::lemma_tree_grows;
use crate::shift::reach;
use crate::tree::is_tight_tree;
use crate::tree::lemma_banded_slacks_fit;
use crate::tree::slacks_fit;
use crate::tree::spans_tight_component;
use crate::tree::TightTree;
use std::collections::HashSet;
use vstd::prelude::*;

verus! {

broadcast use vstd::std_specs::hash::group_hash_axioms;

/// The ranks leave room for tightening: each one, moved by `reach` either
/// way, stays within half the range of `isize`.
pub open spec fn has_headroom(ranks: Map<usize, isize>, min_len: usize, count: nat) -> bool {
    banded(ranks, isize::MAX / 2 - reach(count, min_len))
}

/// What tightening leaves behind: one tight tree for each connected
/// component of the graph, and the number of times a tree was moved.
#[derive(Debug)]
pub struct TightForest {
    pub trees: Vec<TightTree>,
    pub iterations: usize,
}

/// The edge of least slack among those with one end in the tree and one
/// outside; of several such edges, the first. `None` where no edge leaves
/// the tree.
pub fn least_slack_crossing(graph: &Digraph, ranks: &Ranks, tree: &TightTree) -> (found: Option<
    usize,
>)
    requires
        graph.wf(),
        tree.wf(),
        covers(ranks@, graph@),
        slacks_fit(ranks@, ranks.min_len(), graph@),
    ensures
        found is None <==> forall|e: int|
            #![trigger graph@.edges[e]]
            0 <= e < graph@.edges.len() ==> !crosses(graph@, tree@.vertices, e),
        found matches Some(e) ==> is_least_crossing(
            graph@,
            ranks@,
            ranks.min_len(),
            tree@.vertices,
            e as int,
        ),
{
    let edges = graph.edges();
    let ghost shape = graph@;
    let ghost min_len = ranks.min_len();
    let ghost inside = tree@.vertices;
    let mut found: Option<usize> = None;
    let mut least: isize = 0;
    let mut e: usize = 0;
    while e < edges.len()
        invariant
            e <= edges.len(),
            shape == graph@,
            min_len == ranks.min_len(),
            inside == tree@.vertices,
            edges@ == shape.edges,
            graph.wf(),
            tree.wf(),
            covers(ranks@, shape),
            slacks_fit(ranks@, min_len, shape),
            found is None ==> forall|d: int|
                #![trigger shape.edges[d]]
                0 <= d < e ==> !crosses(shape, inside, d),
            found matches Some(at) ==> {
                &&& at < e
                &&& crosses(shape, inside, at as int)
                &&& least == edge_slack(shape, ranks@, min_len, at as int)
                &&& forall|d: int|
                    #![trigger shape.edges[d]]
                    0 <= d < e && crosses(shape, inside, d) ==> {
                        &&& least <= edge_slack(shape, ranks@, min_len, d)
                        &&& d < at ==> least < edge_slack(shape, ranks@, min_len, d)
                    }
            },
        decreases edges.len() - e,
    {
        let (tail, head) = edges[e];
        if tree.contains(tail) != tree.contains(head) {
            let here = ranks.slack(tail, head);
            match found {
                None => {
                    found = Some(e);
                    least = here;
                },
                Some(_) => {
                    if here < least {
                        found = Some(e);
                        least = here;
                    }
                },
            }
        }
        e += 1;
    }
    found
}

/// The edge along which the tree moves next: `None` where the tree holds
/// every vertex of the graph or no edge leaves it.
fn next_crossing(graph: &Digraph, ranks: &Ranks, tree: &TightTree) -> (found: Option<usize>)
    requires
        graph.wf(),
        tree.wf(),
        covers(ranks@, graph@),
        slacks_fit(ranks@, ranks.min_len(), graph@),
        forall|v: usize| tree@.vertices.contains(v) ==> graph@.vertices.contains(v),
    ensures
        found is None <==> forall|e: int|
            #![trigger graph@.edges[e]]
            0 <= e < graph@.edges.len() ==> !crosses(graph@, tree@.vertices, e),
        found matches Some(e) ==> is_least_crossing(
            graph@,
            ranks@,
            ranks.min_len(),
            tree@.vertices,
            e as int,
        ),
{
    if tree.vertices().len() == graph.vertices().len() {
        proof {
            let inside = tree@.vertices;
            let all = graph@.vertices;
            tree.lemma_wf();
            inside.unique_seq_to_set();
            all.unique_seq_to_set();
            vstd::set_lib::lemma_subset_equality(inside.to_set(), all.to_set());
            assert forall|e: int|
                #![trigger graph@.edges[e]]
                0 <= e < graph@.edges.len() implies !crosses(graph@, inside, e) by {
                assert(inside.to_set().contains(graph@.edges[e].0));
                assert(inside.to_set().contains(graph@.edges[e].1));
            }
        }
        None
    } else {
        least_slack_crossing(graph, ranks, tree)
    }
}

/// Adds the vertices of a finished tree to the finished ones.
fn mark_done(done: &mut HashSet<usize>, members: &Vec<usize>)
    requires
        old(done)@.finite(),
        members@.no_duplicates(),
        forall|v: usize| members@.contains(v) ==> !old(done)@.contains(v),
    ensures
        final(done)@.finite(),
        final(done)@.len() == old(done)@.len() + members@.len(),
        forall|v: usize|
            final(done)@.contains(v) <==> old(done)@.contains(v) || members@.contains(v),
{
    let mut j: usize = 0;
    while j < members.len()
        invariant
            j <= members.len(),
            members@.no_duplicates(),
            forall|v: usize| members@.contains(v) ==> !old(done)@.contains(v),
            done@.finite(),
            done@.len() == old(done)@.len() + j,
            forall|v: usize|
                done@.contains(v) <==> old(done)@.contains(v) || members@.take(j as int).contains(
                    v,
                ),
        decreases members.len() - j,
    {
        let vertex = members[j];
        proof {
            assert(members@.contains(vertex));
        }
        done.insert(vertex);
        proof {
            let shorter = members@.take(j as int);
            let longer = members@.take(j + 1);
            assert forall|v: usize| longer.contains(v) <==> shorter.contains(v) || v == vertex by {
                if v == vertex {
                    assert(longer[j as int] == v);
                }
            }
        }
        j += 1;
    }
    assert(members@.take(members.len() as int) =~= members@);
}

/// Spans the connected component of `root`: grows the tight tree of
/// `root`, and while an edge leaves it, moves the tree along the one of
/// least slack and grows it again. Returns the tree and the number of moves.
fn span_component(
    graph: &Digraph,
    ranks: &mut Ranks,
    root: usize,
    Ghost(given): Ghost<Map<usize, isize>>,
    Ghost(done): Ghost<Set<usize>>,
    Ghost(trees): Ghost<Seq<TightTree>>,
) -> (spanned: (TightTree, usize))
    requires
        graph.wf(),
        graph@.vertices.contains(root),
        !done.contains(root),
        done.finite(),
        covers(old(ranks)@, graph@),
        covers(given, graph@),
        feasible(old(ranks)@, old(ranks).min_len(), graph@),
        banded(given, isize::MAX / 2 - reach(graph@.vertices.len(), old(ranks).min_len())),
        banded(old(ranks)@, isize::MAX / 2 - old(ranks).min_len()),
        forall|v: usize|
            !done.contains(v) && old(ranks)@.contains_key(v) ==> old(ranks)@[v] == given[v],
        settled_part(graph@, old(ranks)@, old(ranks).min_len(), done, trees),
    ensures
        final(ranks).min_len() == old(ranks).min_len(),
        covers(final(ranks)@, graph@),
        feasible(final(ranks)@, final(ranks).min_len(), graph@),
        banded(final(ranks)@, isize::MAX / 2 - final(ranks).min_len()),
        settled_part(graph@, final(ranks)@, final(ranks).min_len(), done, trees),
        spanned.0.wf(),
        spanned.0@.vertices[0] == root,
        is_tight_tree(spanned.0@, graph@, final(ranks)@, final(ranks).min_len()),
        spans_tight_component(spanned.0@, graph@, final(ranks)@, final(ranks).min_len(), root),
        forall|v: usize| spanned.0@.vertices.contains(v) ==> graph@.vertices.contains(v),
        forall|v: usize| spanned.0@.vertices.contains(v) ==> !done.contains(v),
        forall|v: usize|
            !done.contains(v) && !spanned.0@.vertices.contains(v) && final(ranks)@.contains_key(v)
                ==> final(ranks)@[v] == given[v],
        forall|e: int|
            #![trigger graph@.edges[e]]
            0 <= e < graph@.edges.len() ==> !crosses(graph@, spanned.0@.vertices, e),
        spanned.1 + 1 <= spanned.0@.vertices.len(),
        spanned.1 == 0 ==> final(ranks)@ == old(ranks)@,
        done.len() + spanned.0@.vertices.len() <= graph@.vertices.len(),
{
    let edges = graph.edges();
    let ghost shape = graph@;
    let ghost min_len = ranks.min_len();
    let ghost count = shape.vertices.len();
    let ghost room = isize::MAX / 2 - reach(count, min_len);
    let ghost wide = isize::MAX / 2 - min_len;
    let mut moves: usize = 0;
    proof {
        lemma_banded_slacks_fit(shape, ranks@, min_len);
    }
    let mut tree = TightTree::grow(graph, ranks, root);
    proof {
        lemma_tree_avoids(shape, ranks@, min_len, done, tree@, root);
        lemma_parts_fit(done, tree@.vertices, shape.vertices);
    }
    let mut crossing = next_crossing(graph, ranks, &tree);
    while crossing.is_some()
        invariant
            count == shape.vertices.len(),
            edges@ == shape.edges,
            shape == graph@,
            graph.wf(),
            ranks.min_len() == min_len,
            room == isize::MAX / 2 - reach(count, min_len),
            wide == isize::MAX / 2 - min_len,
            banded(given, room),
            covers(given, shape),
            covers(ranks@, shape),
            feasible(ranks@, min_len, shape),
            banded(ranks@, wide),
            slacks_fit(ranks@, min_len, shape),
            settled_part(shape, ranks@, min_len, done, trees),
            done.finite(),
            !done.contains(root),
            shape.vertices.contains(root),
            tree.wf(),
            tree@.vertices[0] == root,
            is_tight_tree(tree@, shape, ranks@, min_len),
            spans_tight_component(tree@, shape, ranks@, min_len, root),
            forall|v: usize| tree@.vertices.contains(v) ==> shape.vertices.contains(v),
            forall|v: usize| tree@.vertices.contains(v) ==> !done.contains(v),
            forall|v: usize|
                !done.contains(v) && !tree@.vertices.contains(v) && ranks@.contains_key(v)
                    ==> ranks@[v] == given[v],
            moves + 1 <= tree@.vertices.len(),
            moves == 0 ==> ranks@ == old(ranks)@,
            done.len() + tree@.vertices.len() <= count,
            crossing is None ==> forall|e: int|
                #![trigger shape.edges[e]]
                0 <= e < shape.edges.len() ==> !crosses(shape, tree@.vertices, e),
            crossing matches Some(e) ==> is_least_crossing(
                shape,
                ranks@,
                min_len,
                tree@.vertices,
                e as int,
            ),
        decreases count - tree@.vertices.len(),
    {
        let e = crossing.unwrap();
        let (tail, head) = edges[e];
        let ghost before = ranks@;
        let ghost grown = tree@;
        proof {
            lemma_move_is_safe(shape, grown, before, given, min_len, done, e as int);
        }
        let slack = ranks.slack(tail, head);
        let delta = if tree.contains(tail) {
            slack
        } else {
            -slack
        };
        ranks.tighten_edge(&tree, delta);
        proof {
            let after = ranks@;
            lemma_shift_keeps_feasible(shape, before, min_len, grown.vertices, e as int);
            lemma_banded_slacks_fit(shape, after, min_len);
            lemma_settled_part_persists(shape, before, after, min_len, done, trees);
            tree.lemma_wf();
        }
        moves += 1;
        tree = TightTree::grow(graph, ranks, root);
        proof {
            let after = ranks@;
            lemma_tree_avoids(shape, after, min_len, done, tree@, root);
            lemma_tree_grows(shape, before, after, min_len, grown, tree@, root, e as int);
            lemma_parts_fit(done, tree@.vertices, shape.vertices);
        }
        crossing = next_crossing(graph, ranks, &tree);
    }
    (tree, moves)
}

/// Makes tight edges span every connected component of the graph. From the
/// first vertex that no tree holds yet, the tight tree is grown; while an
/// edge leaves it, the tree is moved along the one of least slack, which
/// makes that edge tight, and grown again.
pub fn feasible_tree(graph: &Digraph, ranks: &mut Ranks) -> (forest: TightForest)
    requires
        graph.wf(),
        covers(old(ranks)@, graph@),
        feasible(old(ranks)@, old(ranks).min_len(), graph@),
        has_headroom(old(ranks)@, old(ranks).min_len(), graph@.vertices.len()),
    ensures
        final(ranks).min_len() == old(ranks).min_len(),
        covers(final(ranks)@, graph@),
        feasible(final(ranks)@, final(ranks).min_len(), graph@),
        banded(final(ranks)@, isize::MAX / 2 - final(ranks).min_len()),
        slacks_fit(final(ranks)@, final(ranks).min_len(), graph@),
        normalizable(final(ranks)@),
        tightly_spanned(graph@, final(ranks)@, final(ranks).min_len()),
        settled_part(
            graph@,
            final(ranks)@,
            final(ranks).min_len(),
            graph@.vertices.to_set(),
            forest.trees@,
        ),
        forest.iterations + forest.trees@.len() <= graph@.vertices.len(),
        is_connected(graph@) && graph@.vertices.len() > 0 ==> forest.trees@.len() == 1
            && forest.iterations <= graph@.vertices.len() - 1,
        forest.iterations == 0 ==> final(ranks)@ == old(ranks)@,
{
    let vertices = graph.vertices();
    let count = vertices.len();
    let ghost shape = graph@;
    let ghost min_len = ranks.min_len();
    let ghost given = ranks@;
    let ghost room = isize::MAX / 2 - reach(count as nat, min_len);
    let ghost wide = isize::MAX / 2 - min_len;
    let mut done: HashSet<usize> = HashSet::new();
    let mut trees: Vec<TightTree> = Vec::new();
    let mut iterations: usize = 0;
    proof {
        assert(room <= wide) by (nonlinear_arith)
            requires
                room == isize::MAX / 2 - (2 * count + 1) * min_len,
                wide == isize::MAX / 2 - min_len,
                count >= 0,
                min_len >= 0,
        ;
    }
    let mut i: usize = 0;
    while i < count
        invariant
            i <= count,
            count == shape.vertices.len(),
            vertices@ == shape.vertices,
            shape == graph@,
            graph.wf(),
            ranks.min_len() == min_len,
            room == isize::MAX / 2 - reach(count as nat, min_len),
            wide == isize::MAX / 2 - min_len,
            banded(given, room),
            covers(given, shape),
            covers(ranks@, shape),
            feasible(ranks@, min_len, shape),
            banded(ranks@, wide),
            forall|v: usize|
                !done@.contains(v) && ranks@.contains_key(v) ==> ranks@[v] == given[v],
            settled_part(shape, ranks@, min_len, done@, trees@),
            forall|j: int| 0 <= j < i ==> done@.contains(#[trigger] vertices[j]),
            done@.finite(),
            iterations + trees.len() <= done@.len(),
            iterations == 0 ==> ranks@ == given,
            done@.len() <= count,
            is_connected(shape) ==> trees.len() <= 1,
            i == 0 ==> trees.len() == 0,
            i > 0 ==> trees.len() >= 1 && done@.contains(vertices[0]),
        decreases count - i,
    {
        let root = vertices[i];
        if !done.contains(&root) {
            let ghost done_before = done@;
            let ghost trees_before = trees@;
            let (tree, moves) = span_component(
                graph,
                ranks,
                root,
                Ghost(given),
                Ghost(done_before),
                Ghost(trees_before),
            );
            mark_done(&mut done, tree.vertices());
            proof {
                lemma_component_settles(
                    shape,
                    ranks@,
                    min_len,
                    done_before,
                    done@,
                    trees_before,
                    tree,
                    root,
                );
                if trees_before.len() >= 1 && is_connected(shape) {
                    lemma_closed_set_holds_connected(
                        shape.edge_set(),
                        done_before,
                        vertices[0],
                        root,
                    );
                }
                assert(tree@.vertices.contains(tree@.vertices[0]));
            }
            iterations += moves;
            trees.push(tree);
        }
        i += 1;
    }
    proof {
        let full = shape.vertices.to_set();
        assert(done@ =~= full);
        lemma_settled_part_is_spanned(shape, ranks@, min_len, trees@);
        lemma_banded_slacks_fit(shape, ranks@, min_len);
        assert(ranks@.dom() =~= full);
        lemma_banded_is_normalizable(ranks@, wide);
    }
    TightForest { trees, iterations }
}

} // verus!
