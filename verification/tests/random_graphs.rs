use layering::assign::assign_ranks;
use layering::graph::Digraph;
use layering::initial::initial_ranking;
use layering::rank::Ranks;
use layering::tighten::feasible_tree;
use petgraph::stable_graph::NodeIndex;
use petgraph::stable_graph::StableDiGraph;
use std::collections::HashMap;
use std::collections::HashSet;

struct Dice(u64);

impl Dice {
    fn roll(&mut self, sides: usize) -> usize {
        self.0 = self.0.wrapping_mul(6364136223846793005).wrapping_add(1442695040888963407);
        ((self.0 >> 33) as usize) % sides
    }
}

/// An acyclic graph: every edge leads from a node to one added later.
/// Some nodes are removed again, which leaves gaps in the identifiers.
fn random_dag(dice: &mut Dice) -> StableDiGraph<Option<isize>, usize> {
    let mut graph: StableDiGraph<Option<isize>, usize> = StableDiGraph::new();
    let count = 1 + dice.roll(12);
    let nodes: Vec<NodeIndex> = (0..count).map(|_| graph.add_node(None)).collect();
    let edges = dice.roll(2 * count);
    for _ in 0..edges {
        let a = dice.roll(count);
        let b = dice.roll(count);
        if a != b {
            graph.add_edge(nodes[a.min(b)], nodes[a.max(b)], 1);
        }
    }
    for &node in &nodes {
        if count > 1 && dice.roll(6) == 0 && graph.node_count() > 1 {
            graph.remove_node(node);
        }
    }
    graph
}

/// The parts into which the edges in `usable` divide the vertices.
fn parts(graph: &Digraph, usable: &dyn Fn(usize, usize) -> bool) -> HashMap<usize, usize> {
    let mut part: HashMap<usize, usize> = graph.vertices().iter().map(|&v| (v, v)).collect();
    let mut changed = true;
    while changed {
        changed = false;
        for &(tail, head) in graph.edges() {
            if usable(tail, head) && part[&tail] != part[&head] {
                let low = part[&tail].min(part[&head]);
                part.insert(tail, low);
                part.insert(head, low);
                changed = true;
            }
        }
    }
    part
}

fn longest_paths(graph: &Digraph, minimum_length: isize) -> HashMap<usize, isize> {
    let mut rank: HashMap<usize, isize> = graph.vertices().iter().map(|&v| (v, 0)).collect();
    for _ in 0..graph.vertices().len() {
        for &(tail, head) in graph.edges() {
            let reached = rank[&tail] + minimum_length;
            if reached > rank[&head] {
                rank.insert(head, reached);
            }
        }
    }
    rank
}

#[test]
fn initial_ranking_is_the_longest_path_on_random_graphs() {
    let mut dice = Dice(7);
    for round in 0..300 {
        let graph = random_dag(&mut dice);
        let minimum_length = dice.roll(4);
        let shape = Digraph::from_graph(&graph);
        let ranks = initial_ranking(&graph, minimum_length).unwrap();
        let expected = longest_paths(&shape, minimum_length as isize);
        for &v in shape.vertices() {
            assert_eq!(ranks.get(v), Some(expected[&v]), "round {round}, vertex {v}");
        }
        assert!(Ranks::is_valid(&expected, &shape));
    }
}

#[test]
fn tightening_spans_every_component_of_random_graphs() {
    let mut dice = Dice(11);
    for round in 0..300 {
        let graph = random_dag(&mut dice);
        let minimum_length = 1 + dice.roll(3);
        let shape = Digraph::from_graph(&graph);
        let mut ranks = initial_ranking(&graph, minimum_length).unwrap();
        let forest = feasible_tree(&shape, &mut ranks);
        for &(tail, head) in shape.edges() {
            assert!(ranks.slack(tail, head) >= 0, "round {round}");
        }
        let whole = parts(&shape, &|_, _| true);
        let tight = parts(&shape, &|tail, head| ranks.slack(tail, head) == 0);
        assert_eq!(whole, tight, "round {round}");
        let components: HashSet<usize> = whole.values().copied().collect();
        assert_eq!(forest.trees.len(), components.len(), "round {round}");
        assert!(forest.iterations + forest.trees.len() <= shape.vertices().len());
        let mut seen = HashSet::new();
        for tree in &forest.trees {
            assert_eq!(tree.edges().len() + 1, tree.vertices().len());
            for &(tail, head) in tree.edges() {
                assert_eq!(ranks.slack(tail, head), 0);
            }
            for &v in tree.vertices() {
                assert!(seen.insert(v), "round {round}: vertex {v} in two trees");
                assert_eq!(whole[&v], whole[&tree.vertices()[0]]);
            }
        }
        assert_eq!(seen.len(), shape.vertices().len());
    }
}

#[test]
fn assigned_ranks_of_random_graphs_fill_the_layers() {
    let mut dice = Dice(13);
    for round in 0..300 {
        let graph = random_dag(&mut dice);
        let minimum_length = dice.roll(3);
        let shape = Digraph::from_graph(&graph);
        let ranks = assign_ranks(&graph, minimum_length).unwrap();
        let lowest = shape.vertices().iter().map(|&v| ranks[v]).min();
        assert_eq!(lowest, Some(0), "round {round}");
        let by_rank: HashMap<usize, isize> =
            shape.vertices().iter().map(|&v| (v, ranks[v])).collect();
        let layers = ranks.into_layers(&shape);
        let mut placed = 0;
        for (rank, group) in layers.groups().iter().enumerate() {
            for v in group {
                assert_eq!(by_rank[v], rank as isize, "round {round}");
                placed += 1;
            }
        }
        assert_eq!(placed, shape.vertices().len());
        assert!(!layers.groups().last().unwrap().is_empty());
    }
}
