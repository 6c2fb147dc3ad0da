use layering::assign::assign_ranks;
use layering::error::RankError;
use layering::graph::Digraph;
use layering::rank::Ranks;
use layering::tighten::feasible_tree;
use layering::tighten::least_slack_crossing;
use layering::tree::TightTree;
use petgraph::stable_graph::StableDiGraph;
use std::collections::HashMap;
use std::collections::HashSet;

fn nine_vertex_graph() -> Digraph {
    let graph: StableDiGraph<Option<isize>, usize> = StableDiGraph::from_edges(&[
        (0, 1),
        (1, 2),
        (2, 3),
        (3, 7),
        (0, 4),
        (0, 5),
        (4, 6),
        (5, 6),
        (6, 7),
        (7, 8),
    ]);
    Digraph::from_graph(&graph)
}

fn create_test_ranking_not_tight() -> Ranks {
    let ranks_raw = HashMap::from([
        (0, 0),
        (1, 1),
        (2, 2),
        (3, 3),
        (4, 1),
        (5, 1),
        (6, 3),
        (7, 4),
        (8, 6),
    ]);
    Ranks::new_unchecked(ranks_raw, 1)
}

fn assert_feasible(graph: &Digraph, ranks: &Ranks) {
    for &(tail, head) in graph.edges() {
        assert!(ranks.slack(tail, head) >= 0, "edge {tail} -> {head}");
    }
}

/// The vertices that tight edges join to `start`, found by plain search.
fn tight_reach(graph: &Digraph, ranks: &Ranks, start: usize) -> HashSet<usize> {
    let mut seen = HashSet::from([start]);
    let mut changed = true;
    while changed {
        changed = false;
        for &(tail, head) in graph.edges() {
            if ranks.slack(tail, head) == 0 && seen.contains(&tail) != seen.contains(&head) {
                seen.insert(tail);
                seen.insert(head);
                changed = true;
            }
        }
    }
    seen
}

#[test]
fn tight_tree_holds_what_tight_edges_reach() {
    let graph = nine_vertex_graph();
    let ranks = create_test_ranking_not_tight();
    let tree = TightTree::grow(&graph, &ranks, 0);
    let found: HashSet<usize> = tree.vertices().iter().copied().collect();
    assert_eq!(found, HashSet::from([0, 1, 2, 3, 4, 5, 6, 7]));
    assert_eq!(found, tight_reach(&graph, &ranks, 0));
    assert_eq!(tree.vertices()[0], 0);
    assert_eq!(tree.edges().len() + 1, tree.vertices().len());
    for &(tail, head) in tree.edges() {
        assert_eq!(ranks.slack(tail, head), 0);
    }
    assert!(tree.contains(6));
    assert!(!tree.contains(8));
    let lone = TightTree::grow(&graph, &ranks, 8);
    assert_eq!(lone.vertices(), &vec![8]);
}

#[test]
fn crossing_edge_of_least_slack_is_the_first_one() {
    let graph = Digraph::new(vec![0, 1, 2, 3], vec![(0, 1), (0, 2), (1, 3), (2, 3)]).unwrap();
    let ranks = Ranks::new_unchecked(HashMap::from([(0, 0), (1, 3), (2, 2), (3, 5)]), 1);
    let tree = TightTree::grow(&graph, &ranks, 0);
    assert_eq!(tree.vertices(), &vec![0]);
    assert_eq!(least_slack_crossing(&graph, &ranks, &tree), Some(1));
    let level = Ranks::new_unchecked(HashMap::from([(0, 0), (1, 3), (2, 3), (3, 5)]), 1);
    assert_eq!(least_slack_crossing(&graph, &level, &TightTree::grow(&graph, &level, 0)), Some(0));
    let tight = Ranks::new_unchecked(HashMap::from([(0, 0), (1, 1), (2, 1), (3, 2)]), 1);
    assert_eq!(least_slack_crossing(&graph, &tight, &TightTree::grow(&graph, &tight, 3)), None);
}

#[test]
fn tightening_keeps_the_ranking_feasible_and_makes_it_tight() {
    let graph = nine_vertex_graph();
    let mut ranks = create_test_ranking_not_tight();
    assert_feasible(&graph, &ranks);
    let forest = feasible_tree(&graph, &mut ranks);
    assert_feasible(&graph, &ranks);
    assert!(forest.iterations <= 8);
    assert_eq!(forest.trees.len(), 1);
    let tree = &forest.trees[0];
    assert_eq!(tree.vertices().len(), 9);
    assert_eq!(tree.edges().len(), 8);
    for &(tail, head) in tree.edges() {
        assert_eq!(ranks.slack(tail, head), 0);
    }
    assert_eq!(tight_reach(&graph, &ranks, 0).len(), 9);
    for v in 0..9 {
        assert!(ranks.get(v).is_some());
    }
    assert_eq!(ranks.get(10), None);
}

#[test]
fn moving_a_tree_keeps_the_differences_inside_it() {
    let graph = nine_vertex_graph();
    let mut ranks = create_test_ranking_not_tight();
    let tree = TightTree::grow(&graph, &ranks, 0);
    let before: Vec<isize> = tree.vertices().iter().map(|&v| ranks[v]).collect();
    ranks.tighten_edge(&tree, 1);
    let after: Vec<isize> = tree.vertices().iter().map(|&v| ranks[v]).collect();
    for a in 0..before.len() {
        assert_eq!(after[a], before[a] + 1);
        for b in 0..before.len() {
            assert_eq!(after[a] - after[b], before[a] - before[b]);
        }
    }
    assert_eq!(ranks.get(8), Some(6));
    assert_eq!(ranks.slack(7, 8), 0);
}

#[test]
fn update_skips_a_vertex_that_is_absent() {
    let mut ranks = Ranks::new_unchecked(HashMap::from([(0, 4), (1, 7)]), 1);
    ranks.update(1, -5);
    ranks.update(9, 3);
    assert_eq!(ranks.get(0), Some(4));
    assert_eq!(ranks.get(1), Some(2));
    assert_eq!(ranks.get(9), None);
}

#[test]
fn each_component_gets_its_own_tree() {
    let graph = Digraph::new(vec![0, 1, 2, 3, 4], vec![(0, 1), (3, 2), (2, 4), (3, 4)]).unwrap();
    let mut ranks =
        Ranks::new_unchecked(HashMap::from([(0, 0), (1, 5), (2, 2), (3, 0), (4, 9)]), 2);
    assert_feasible(&graph, &ranks);
    let forest = feasible_tree(&graph, &mut ranks);
    assert_feasible(&graph, &ranks);
    assert_eq!(forest.trees.len(), 2);
    assert!(forest.iterations + forest.trees.len() <= 5);
    assert_eq!(ranks.slack(0, 1), 0);
    assert_eq!(ranks.slack(3, 2), 0);
    assert_eq!(ranks.slack(2, 4), 0);
    assert_eq!(ranks.slack(3, 4), 2);
    let first: HashSet<usize> = forest.trees[0].vertices().iter().copied().collect();
    let second: HashSet<usize> = forest.trees[1].vertices().iter().copied().collect();
    assert_eq!(first, HashSet::from([0, 1]));
    assert_eq!(second, HashSet::from([2, 3, 4]));
}

#[test]
fn graph_without_vertices_has_no_tree() {
    let graph = Digraph::new(vec![], vec![]).unwrap();
    let mut ranks = Ranks::new_unchecked(HashMap::new(), 1);
    let forest = feasible_tree(&graph, &mut ranks);
    assert_eq!(forest.trees.len(), 0);
    assert_eq!(forest.iterations, 0);
    ranks.normalize();
    assert_eq!(ranks.into_layers(&graph).groups().len(), 0);
}

#[test]
fn assigned_ranks_are_tight_and_start_at_zero() {
    let graph: StableDiGraph<Option<isize>, usize> = StableDiGraph::from_edges(&[
        (0, 1),
        (1, 2),
        (2, 3),
        (3, 7),
        (0, 4),
        (0, 5),
        (4, 6),
        (5, 6),
        (6, 7),
        (7, 8),
    ]);
    let shape = Digraph::from_graph(&graph);
    let ranks = assign_ranks(&graph, 1).unwrap();
    assert_feasible(&shape, &ranks);
    assert_eq!(tight_reach(&shape, &ranks, 0).len(), 9);
    let least = (0..9).map(|v| ranks[v]).min();
    assert_eq!(least, Some(0));
    let layers = ranks.into_layers(&shape);
    let mut seen: Vec<usize> = layers.groups().iter().flatten().copied().collect();
    seen.sort();
    assert_eq!(seen, (0..9).collect::<Vec<usize>>());
    assert!(!layers.groups().last().unwrap().is_empty());
}

#[test]
fn assigning_ranks_refuses_what_cannot_be_ranked() {
    let cyclic: StableDiGraph<Option<isize>, usize> = StableDiGraph::from_edges(&[(0, 1), (1, 0)]);
    assert_eq!(assign_ranks(&cyclic, 1).err(), Some(RankError::CyclicGraph));
    let chain: StableDiGraph<Option<isize>, usize> = StableDiGraph::from_edges(&[(0, 1)]);
    assert_eq!(assign_ranks(&chain, usize::MAX / 8).err(), Some(RankError::TooLarge));
    assert!(assign_ranks(&chain, (isize::MAX / 2) as usize / 6).is_ok());
    assert_eq!(
        assign_ranks(&chain, (isize::MAX / 2) as usize / 6 + 1).err(),
        Some(RankError::TooLarge)
    );
}
