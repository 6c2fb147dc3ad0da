use layering::graph::Digraph;
use layering::layers::Layers;
use layering::rank::Ranks;
use petgraph::stable_graph::StableDiGraph;
use std::collections::HashMap;

#[test]
fn graph_needs_distinct_vertices_and_known_endpoints() {
    assert!(Digraph::new(vec![4, 2, 9], vec![(4, 2), (9, 2), (4, 2)]).is_some());
    assert!(Digraph::new(vec![], vec![]).is_some());
    assert!(Digraph::new(vec![4, 2, 4], vec![]).is_none());
    assert!(Digraph::new(vec![4, 2], vec![(4, 3)]).is_none());
    assert!(Digraph::new(vec![4, 2], vec![(3, 4)]).is_none());
}

#[test]
fn graph_lists_the_edges_at_each_vertex_in_order() {
    let graph = Digraph::new(vec![4, 2, 9], vec![(4, 2), (9, 9), (9, 2), (4, 2)]).unwrap();
    assert_eq!(graph.vertices(), &vec![4, 2, 9]);
    assert_eq!(graph.edges(), &vec![(4, 2), (9, 9), (9, 2), (4, 2)]);
    assert_eq!(graph.incident_edges(4), &vec![0, 3]);
    assert_eq!(graph.incident_edges(2), &vec![0, 2, 3]);
    assert_eq!(graph.incident_edges(9), &vec![1, 2]);
    assert!(graph.contains_vertex(9));
    assert!(!graph.contains_vertex(0));
}

#[test]
fn graph_is_taken_from_petgraph_as_it_stands() {
    let mut graph: StableDiGraph<Option<isize>, usize> = StableDiGraph::new();
    let a = graph.add_node(Some(7));
    let b = graph.add_node(None);
    let c = graph.add_node(Some(-1));
    let d = graph.add_node(None);
    graph.add_edge(c, a, 5);
    graph.add_edge(a, b, 1);
    graph.add_edge(c, a, 2);
    graph.add_edge(b, d, 2);
    graph.remove_node(d);
    let shape = Digraph::from_graph(&graph);
    assert_eq!(shape.vertices(), &vec![0, 1, 2]);
    assert_eq!(shape.edges(), &vec![(2, 0), (0, 1), (2, 0)]);
}

#[test]
fn store_keeps_what_it_was_given() {
    let graph = Digraph::new(vec![3, 5], vec![(3, 5)]).unwrap();
    let ranks = Ranks::new(HashMap::from([(3, -2), (5, 4)]), &graph, 3).unwrap();
    assert_eq!(ranks.get(3), Some(-2));
    assert_eq!(ranks.get(5), Some(4));
    assert_eq!(ranks.get(4), None);
    assert_eq!(ranks[5], 4);
    assert_eq!(ranks.get_minimum_length(), 3);
    assert_eq!(ranks.slack(3, 5), 3);
    assert_eq!(ranks.slack(5, 3), -9);
    assert!(Ranks::new(HashMap::from([(3, 0)]), &graph, 1).is_err());
    assert!(Ranks::new(HashMap::from([(3, 0), (5, 0), (6, 0)]), &graph, 1).is_err());
    assert!(Ranks::is_valid(&HashMap::new(), &Digraph::new(vec![], vec![]).unwrap()));
}

#[test]
fn layers_keep_a_group_for_every_rank() {
    let graph = Digraph::new(vec![0, 1, 2, 3], vec![(0, 1), (0, 2), (2, 3)]).unwrap();
    let ranks = Ranks::new(HashMap::from([(0, 10), (1, 13), (2, 13), (3, 15)]), &graph, 1).unwrap();
    let layers = ranks.into_layers(&graph);
    let mut groups = layers.groups().clone();
    for group in groups.iter_mut() {
        group.sort();
    }
    assert_eq!(groups, vec![vec![0], vec![], vec![], vec![1, 2], vec![], vec![3]]);
}

#[test]
fn layers_wrap_the_groups_as_they_are() {
    let layers = Layers::new(vec![vec![2], vec![], vec![0, 1]]);
    assert_eq!(layers.groups(), &vec![vec![2], vec![], vec![0, 1]]);
}

#[test]
fn keys_stay_the_same_through_every_change() {
    let graph = Digraph::new(vec![0, 1, 2], vec![(0, 1), (1, 2)]).unwrap();
    let mut ranks = Ranks::new(HashMap::from([(0, 5), (1, 6), (2, 9)]), &graph, 1).unwrap();
    ranks.update(2, -1);
    ranks.update(7, 4);
    ranks.normalize();
    let tree = layering::tree::TightTree::grow(&graph, &ranks, 0);
    ranks.tighten_edge(&tree, -2);
    assert_eq!(ranks.slack(1, 2), 3);
    let forest = layering::tighten::feasible_tree(&graph, &mut ranks);
    assert_eq!(forest.iterations, 1);
    assert_eq!(ranks.get(0), Some(1));
    assert_eq!(ranks.get(1), Some(2));
    assert_eq!(ranks.get(2), Some(3));
    for vertex in 3..10 {
        assert_eq!(ranks.get(vertex), None);
    }
}
