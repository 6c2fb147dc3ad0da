use layering::error::RankError;
use layering::graph::Digraph;
use layering::initial::initial_ranking;
use layering::initial::longest_path_ranking;
use petgraph::stable_graph::StableDiGraph;

fn create_test_graph() -> StableDiGraph<Option<isize>, usize> {
    StableDiGraph::from_edges(&[
        (0, 1),
        (1, 2),
        (2, 3),
        (1, 4),
        (1, 5),
        (4, 6),
        (5, 6),
        (3, 7),
        (6, 7),
    ])
}

fn sorted(mut group: Vec<usize>) -> Vec<usize> {
    group.sort();
    group
}

#[test]
fn test_initial_ranking() {
    let graph = create_test_graph();
    let ranks = initial_ranking(&graph, 1).unwrap();
    assert_eq!(ranks.get(0), Some(0));
    assert_eq!(ranks.get(1), Some(1));
    assert_eq!(ranks.get(2), Some(2));
    assert_eq!(ranks.get(3), Some(3));
    assert_eq!(ranks.get(4), Some(2));
    assert_eq!(ranks.get(5), Some(2));
    assert_eq!(ranks.get(6), Some(3));
    assert_eq!(ranks.get(7), Some(4));
}

#[test]
fn chain_ranks_one_vertex_per_layer() {
    let graph: StableDiGraph<Option<isize>, usize> =
        StableDiGraph::from_edges(&[(0, 1), (1, 2), (2, 3)]);
    let ranks = initial_ranking(&graph, 1).unwrap();
    for v in 0..4 {
        assert_eq!(ranks.get(v), Some(v as isize));
    }
    for v in 0..3 {
        assert_eq!(ranks.slack(v, v + 1), 0);
    }
    let layers = ranks.into_layers(&Digraph::from_graph(&graph));
    assert_eq!(layers.groups(), &vec![vec![0], vec![1], vec![2], vec![3]]);
}

#[test]
fn diamond_takes_the_longer_way() {
    let graph: StableDiGraph<Option<isize>, usize> =
        StableDiGraph::from_edges(&[(0, 1), (0, 2), (1, 3), (2, 3)]);
    let ranks = initial_ranking(&graph, 1).unwrap();
    assert_eq!(ranks.get(0), Some(0));
    assert_eq!(ranks.get(1), Some(1));
    assert_eq!(ranks.get(2), Some(1));
    assert_eq!(ranks.get(3), Some(2));
    let layers = ranks.into_layers(&Digraph::from_graph(&graph));
    let groups: Vec<Vec<usize>> = layers.groups().iter().map(|g| sorted(g.clone())).collect();
    assert_eq!(groups, vec![vec![0], vec![1, 2], vec![3]]);
}

#[test]
fn vertex_below_two_paths_takes_the_greater_rank() {
    let graph: StableDiGraph<Option<isize>, usize> =
        StableDiGraph::from_edges(&[(0, 1), (1, 2), (2, 4), (3, 4)]);
    let ranks = initial_ranking(&graph, 2).unwrap();
    assert_eq!(ranks.get(3), Some(0));
    assert_eq!(ranks.get(4), Some(6));
    assert_eq!(ranks.slack(3, 4), 4);
    assert_eq!(ranks.get_minimum_length(), 2);
}

#[test]
fn cycle_is_refused() {
    let graph: StableDiGraph<Option<isize>, usize> =
        StableDiGraph::from_edges(&[(0, 1), (1, 2), (2, 0)]);
    assert_eq!(initial_ranking(&graph, 1).err(), Some(RankError::CyclicGraph));
    let looped: StableDiGraph<Option<isize>, usize> = StableDiGraph::from_edges(&[(0, 0)]);
    assert_eq!(initial_ranking(&looped, 1).err(), Some(RankError::CyclicGraph));
}

#[test]
fn huge_minimum_length_is_refused() {
    let graph: StableDiGraph<Option<isize>, usize> = StableDiGraph::from_edges(&[(0, 1), (1, 2)]);
    assert_eq!(initial_ranking(&graph, usize::MAX / 2).err(), Some(RankError::TooLarge));
}

#[test]
fn removed_vertex_leaves_a_gap_in_the_identifiers() {
    let mut graph: StableDiGraph<Option<isize>, usize> =
        StableDiGraph::from_edges(&[(0, 1), (1, 2), (2, 3)]);
    graph.remove_node(1.into());
    let shape = Digraph::from_graph(&graph);
    assert_eq!(shape.vertices(), &vec![0, 2, 3]);
    assert_eq!(shape.edges(), &vec![(2, 3)]);
    let ranks = initial_ranking(&graph, 1).unwrap();
    assert_eq!(ranks.get(0), Some(0));
    assert_eq!(ranks.get(1), None);
    assert_eq!(ranks.get(2), Some(0));
    assert_eq!(ranks.get(3), Some(1));
}

#[test]
fn ranking_follows_the_given_order() {
    let graph = Digraph::new(vec![5, 9, 7], vec![(9, 5), (7, 9), (7, 5)]).unwrap();
    let ranks = longest_path_ranking(&graph, &vec![7, 9, 5], 3);
    assert_eq!(ranks.get(7), Some(0));
    assert_eq!(ranks.get(9), Some(3));
    assert_eq!(ranks.get(5), Some(6));
}

#[test]
fn minimum_length_zero_ranks_everything_at_zero() {
    let graph: StableDiGraph<Option<isize>, usize> =
        StableDiGraph::from_edges(&[(0, 1), (1, 2), (0, 2)]);
    let ranks = initial_ranking(&graph, 0).unwrap();
    for v in 0..3 {
        assert_eq!(ranks.get(v), Some(0));
    }
}

#[test]
fn vertex_without_edges_ranks_at_zero() {
    let mut graph: StableDiGraph<Option<isize>, usize> = StableDiGraph::new();
    graph.add_node(None);
    let ranks = initial_ranking(&graph, 4).unwrap();
    assert_eq!(ranks.get(0), Some(0));
    let empty: StableDiGraph<Option<isize>, usize> = StableDiGraph::new();
    assert!(initial_ranking(&empty, usize::MAX).is_ok());
}

#[test]
fn parallel_edges_rank_like_one() {
    let graph: StableDiGraph<Option<isize>, usize> =
        StableDiGraph::from_edges(&[(0, 1), (0, 1), (1, 2)]);
    let ranks = initial_ranking(&graph, 5).unwrap();
    assert_eq!(ranks.get(1), Some(5));
    assert_eq!(ranks.get(2), Some(10));
}
