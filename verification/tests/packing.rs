use cluster_lib::graph::{Edge, Graph};
use cluster_lib::packing::{magnitude, Packing};
use cluster_lib::triple::Triple;

fn weighted(n: usize, edges: &[(usize, usize, i32)]) -> Graph {
    let mut graph = Graph::new(n);
    for &(a, b, w) in edges {
        graph.un_cut(a, b, Edge::new(w));
    }
    graph
}

fn packed(graph: &Graph) -> Packing {
    let mut packing = Packing::new(graph.vertex_merged.len());
    packing.pack(graph);
    packing
}

fn same_counts(graph: &Graph, one: &Packing, two: &Packing) -> bool {
    graph.active.iter().all(|&a| {
        graph.active.iter().all(|&b| {
            a == b || one.edge_conflicts.get(a, b) == two.edge_conflicts.get(a, b)
        })
    })
}

fn claims_add_up(graph: &Graph, packing: &Packing) -> bool {
    let total: u32 = packing.triples.iter().map(|t| t.cost).sum();
    total == packing.lower
        && graph.active.iter().all(|&a| {
            graph.active.iter().all(|&b| {
                if a == b {
                    return true;
                }
                let claimed: u32 =
                    packing.triples.iter().filter(|t| t.edge([a, b])).map(|t| t.cost).sum();
                claimed == packing.edge_cost.get(a, b)
                    && claimed <= magnitude(graph.edges.get(a, b).weight)
            })
        })
}

#[test]
fn magnitude_is_the_absolute_value() {
    assert_eq!(magnitude(-7), 7);
    assert_eq!(magnitude(7), 7);
    assert_eq!(magnitude(0), 0);
    assert_eq!(magnitude(-i32::MAX), 2147483647);
}

#[test]
fn new_packing_is_empty() {
    let packing = Packing::new(4);
    assert!(packing.triples.is_empty());
    assert_eq!(packing.lower, 0);
    assert_eq!(packing.edge_cost.get(1, 2), 0);
    assert_eq!(packing.edge_conflicts.get(0, 3), 0);
}

#[test]
fn pack_claims_the_least_budget_of_a_conflict() {
    let graph = weighted(3, &[(0, 1, 4), (1, 2, 2), (0, 2, -3)]);
    let packing = packed(&graph);
    assert_eq!(packing.triples, vec![Triple { vertices: [0, 1, 2], cost: 2 }]);
    assert_eq!(packing.lower, 2);
    assert_eq!(packing.edge_cost.get(0, 1), 2);
    assert_eq!(packing.edge_cost.get(1, 2), 2);
    assert_eq!(packing.edge_cost.get(0, 2), 2);
    assert_eq!(packing.edge_conflicts.get(0, 1), 1);
    assert_eq!(packing.edge_conflicts.get(2, 0), 1);
}

#[test]
fn pack_finds_nothing_in_a_graph_without_conflicts() {
    let cliques = weighted(4, &[(0, 1, 1), (2, 3, 5)]);
    let packing = packed(&cliques);
    assert!(packing.triples.is_empty());
    assert_eq!(packing.lower, 0);
    let all_positive = weighted(3, &[(0, 1, 1), (1, 2, 1), (0, 2, 1)]);
    assert_eq!(packed(&all_positive).lower, 0);
    let one_positive = weighted(3, &[(0, 1, 1)]);
    assert_eq!(packed(&one_positive).lower, 0);
    assert_eq!(packed(&one_positive).edge_conflicts.get(0, 1), 0);
}

#[test]
fn pack_goes_by_the_positions_of_the_vertices() {
    // a star: the three conflicts share the budget of their edges
    let graph = weighted(4, &[(0, 1, 1), (0, 2, 1), (0, 3, 1)]);
    let packing = packed(&graph);
    assert_eq!(packing.triples, vec![Triple { vertices: [0, 1, 2], cost: 1 }]);
    assert_eq!(packing.lower, 1);
    assert_eq!(packing.edge_conflicts.get(0, 1), 2);
    assert_eq!(packing.edge_conflicts.get(1, 2), 1);
    assert_eq!(packing.edge_conflicts.get(0, 3), 2);
    let mut turned = graph.clone();
    turned.active = vec![3, 2, 1, 0];
    let other = packed(&turned);
    assert_eq!(other.triples, vec![Triple { vertices: [0, 2, 3], cost: 1 }]);
    assert!(same_counts(&graph, &packing, &other));
}

#[test]
fn a_fixed_edge_lends_its_budget_to_many_conflicts() {
    let mut graph = weighted(4, &[(0, 1, 2), (0, 2, 2), (1, 3, 2), (2, 3, 2), (1, 2, 1)]);
    graph.cut(0, 3);
    let packing = packed(&graph);
    assert_eq!(packing.lower, 4);
    assert_eq!(packing.edge_cost.get(0, 3), 4);
    assert!(claims_add_up(&graph, &packing));
}

#[test]
fn add_triple_counts_a_conflict_that_has_no_budget_left() {
    let graph = weighted(4, &[(0, 1, 1), (0, 2, 1), (0, 3, 1)]);
    let mut packing = Packing::new(8);
    packing.add_triple(&graph, 0, 1, 2);
    assert_eq!(packing.lower, 1);
    packing.add_triple(&graph, 3, 1, 0);
    assert_eq!(packing.lower, 1);
    assert_eq!(packing.triples.len(), 1);
    assert_eq!(packing.edge_conflicts.get(0, 1), 2);
    assert_eq!(packing.edge_conflicts.get(1, 3), 1);
    packing.add_triple(&graph, 1, 2, 3);
    assert_eq!(packing.edge_conflicts.get(1, 3), 1);
    packing.remove_triple_conflicts(&graph, 0, 1, 3);
    assert_eq!(packing.edge_conflicts.get(0, 1), 1);
    assert_eq!(packing.edge_conflicts.get(1, 3), 0);
    packing.remove_triple_conflicts(&graph, 1, 2, 3);
    assert_eq!(packing.edge_conflicts.get(1, 2), 1);
    let triple = packing.triples.pop().unwrap();
    packing.remove_triple_cost(triple);
    assert_eq!(packing.lower, 0);
    assert_eq!(packing.edge_cost.get(0, 1), 0);
    assert_eq!(packing.edge_cost.get(1, 2), 0);
}

#[test]
fn packing_follows_a_merge_and_its_undoing() {
    let graph = weighted(
        5,
        &[(0, 1, 2), (1, 2, 3), (0, 2, -1), (2, 3, 2), (3, 4, 1), (1, 4, 2)],
    );
    let mut changed = graph.clone();
    let mut packing = packed(&graph);
    packing.remove_vertex_pair(&changed, 1, 2);
    assert!(packing.triples.iter().all(|t| !t.vertex(1) && !t.vertex(2)));
    assert!(claims_add_up(&changed, &packing));
    let (vv, _) = changed.merge(1, 2);
    packing.add_vertex(&changed, vv);
    let rebuilt = packed(&changed);
    assert!(same_counts(&changed, &packing, &rebuilt));
    assert!(claims_add_up(&changed, &packing));
    packing.remove_vertex(&changed, vv);
    assert!(packing.triples.iter().all(|t| !t.vertex(vv)));
    changed.un_merge(1, 2, vv);
    packing.add_vertex_pair(&changed, 1, 2);
    assert!(same_counts(&changed, &packing, &packed(&changed)));
    assert!(same_counts(&graph, &packing, &packed(&graph)));
    assert!(claims_add_up(&changed, &packing));
}

#[test]
fn packing_follows_a_cut_and_its_undoing() {
    let graph = weighted(4, &[(0, 1, 2), (1, 2, 3), (0, 2, -1), (2, 3, 2)]);
    let mut changed = graph.clone();
    let mut packing = packed(&graph);
    packing.remove_edge(&changed, 1, 2);
    assert!(packing.triples.iter().all(|t| !t.edge([1, 2])));
    let edge = changed.cut(1, 2);
    packing.add_edge(&changed, 1, 2);
    assert!(same_counts(&changed, &packing, &packed(&changed)));
    assert!(claims_add_up(&changed, &packing));
    packing.remove_edge(&changed, 1, 2);
    changed.un_cut(1, 2, edge);
    packing.add_edge(&changed, 1, 2);
    assert!(same_counts(&graph, &packing, &packed(&graph)));
    assert!(claims_add_up(&graph, &packing));
}

#[test]
fn remove_edge_conflicts_takes_the_counts_of_one_edge_back() {
    let graph = weighted(4, &[(0, 1, 1), (1, 2, 1), (1, 3, 1)]);
    let mut packing = packed(&graph);
    assert_eq!(packing.edge_conflicts.get(0, 1), 2);
    packing.remove_edge_conflicts(&graph, 0, 1);
    assert_eq!(packing.edge_conflicts.get(0, 1), 0);
    assert_eq!(packing.edge_conflicts.get(1, 2), 1);
    assert_eq!(packing.edge_conflicts.get(0, 2), 0);
    assert_eq!(packing.edge_conflicts.get(2, 3), 1);
    assert_eq!(packing.lower, 1);
}

#[test]
fn kept_up_to_date_packing_may_claim_less_than_a_rebuilt_one() {
    let graph = weighted(
        4,
        &[(0, 1, 1), (0, 2, 1), (1, 2, -1), (0, 3, -1), (1, 3, 1), (2, 3, -1)],
    );
    let mut changed = graph.clone();
    let mut packing = packed(&graph);
    assert_eq!(packing.lower, 1);
    packing.remove_edge(&changed, 0, 2);
    changed.cut(0, 2);
    packing.add_edge(&changed, 0, 2);
    let rebuilt = packed(&changed);
    assert_eq!(packing.lower, 0);
    assert_eq!(rebuilt.lower, 1);
    assert!(same_counts(&changed, &packing, &rebuilt));
    assert!(claims_add_up(&changed, &packing));
    assert!(claims_add_up(&changed, &rebuilt));
}
