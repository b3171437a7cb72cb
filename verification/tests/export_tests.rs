use celebrity_clique::clique::build_party;
use celebrity_clique::export::clique2digraph;

#[test]
fn test_digraph_of_empty_party() {
    let party = build_party(vec![]);
    let graph = clique2digraph(&party);
    assert_eq!(graph.node_count(), 0);
    assert_eq!(graph.edge_count(), 0);
}

#[test]
fn test_digraph_nodes_and_edges() {
    let party = build_party(vec![
        (1, vec![1, 2, 3]),
        (2, vec![1, 3]),
        (3, vec![1, 2]),
        (4, vec![1, 2, 3, 42]),
        (5, vec![1, 2, 3, 4, 5]),
        (6, vec![1, 2, 3, 7]),
        (7, vec![1, 2, 3, 5, 6]),
    ]);
    let graph = clique2digraph(&party);
    // one node per actor
    assert_eq!(graph.node_count(), 7);
    let mut weights: Vec<usize> = graph.node_weights().copied().collect();
    weights.sort();
    assert_eq!(weights, vec![1, 2, 3, 4, 5, 6, 7]);
    // one edge per acknowledged id naming a party member; self-references
    // were stripped on construction and 42 names nobody at the party
    assert_eq!(graph.edge_count(), 2 + 2 + 2 + 3 + 4 + 4 + 5);
    // every edge runs from an acknowledging actor to one of its known ids
    for edge in graph.raw_edges() {
        let from = graph[edge.source()];
        let to = graph[edge.target()];
        let person = party.iter().find(|p| p.id == from).expect("edge source is an actor");
        assert!(person.known_people.contains(&to));
    }
}

#[test]
fn test_digraph_simple_edge() {
    let party = build_party(vec![(1, vec![2]), (2, vec![])]);
    let graph = clique2digraph(&party);
    assert_eq!(graph.node_count(), 2);
    assert_eq!(graph.edge_count(), 1);
    let edge = &graph.raw_edges()[0];
    assert_eq!(graph[edge.source()], 1);
    assert_eq!(graph[edge.target()], 2);
}
