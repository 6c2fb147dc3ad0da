use layering::error::RankError;
use layering::graph::Digraph;
use layering::rank::Ranks;
use petgraph::stable_graph::StableDiGraph;
use std::collections::HashMap;

fn create_test_graph() -> StableDiGraph<Option<isize>, usize> {
    StableDiGraph::from_edges(&[
        (0, 1),
        (1, 2),
        (2, 3),
        (1, 4),
        (1, 5),
        (4, 6),
        (5, 6),
        (3, 7),
        (6, 7),
    ])
}

#[test]
fn test_is_valid() {
    let graph = Digraph::from_graph(&create_test_graph());
    let ranks_raw = HashMap::from([
        (0, 0),
        (1, 0),
        (2, 0),
        (3, 0),
        (4, 0),
        (5, 0),
        (6, 0),
        (7, 0),
    ]);

    assert!(Ranks::is_valid(&ranks_raw, &graph));
}

#[test]
fn test_is_not_valid() {
    let graph = Digraph::from_graph(&create_test_graph());
    let ranks_raw = HashMap::from([
        (0, 0),
        (1, 0),
        (2, 0),
        (3, 0),
        (5, 0),
        (6, 0),
        (7, 0),
    ]);

    assert!(!Ranks::is_valid(&ranks_raw, &graph));
}

#[test]
fn new_rejects_a_foreign_vertex() {
    let graph = Digraph::from_graph(&create_test_graph());
    let mut ranks_raw: HashMap<usize, isize> = (0..8).map(|v| (v, 0)).collect();
    ranks_raw.remove(&4);
    ranks_raw.insert(11, 0);
    assert_eq!(Ranks::new(ranks_raw, &graph, 1).err(), Some(RankError::MalformedStore));
}

#[test]
fn normalize_moves_the_least_rank_to_zero() {
    let mut ranks = Ranks::new_unchecked(HashMap::from([(0, -3), (1, 2), (2, -1)]), 1);
    ranks.normalize();
    assert_eq!(ranks.get(0), Some(0));
    assert_eq!(ranks.get(1), Some(5));
    assert_eq!(ranks.get(2), Some(2));
    assert_eq!(ranks[1], 5);
    ranks.normalize();
    assert_eq!(ranks.get(0), Some(0));
    assert_eq!(ranks.get(1), Some(5));
    assert_eq!(ranks.get(2), Some(2));
}
