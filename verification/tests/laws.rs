use cluster_lib::critical::{critical, propagate};
use cluster_lib::graph::{Edge, Graph};
use cluster_lib::packing::Packing;
use cluster_lib::search::Solver;

fn unit_graph(n: usize, mut bits: u32) -> Graph {
    let mut graph = Graph::new(n);
    for a in 0..n {
        for b in 0..a {
            if bits % 2 == 1 {
                graph.un_cut(a, b, Edge::new(1));
            }
            bits /= 2;
        }
    }
    graph
}

fn least_cost(graph: &Graph) -> u32 {
    let mut solver = Solver::new(graph.clone());
    solver.search_components();
    solver.upper
}

#[test]
fn propagate_keeps_the_least_cost_of_unit_graphs() {
    for bits in 0..1024 {
        let graph = unit_graph(5, bits);
        let mut reduced = graph.clone();
        propagate(&mut reduced);
        assert_eq!(least_cost(&reduced), least_cost(&graph));
    }
}

#[test]
fn critical_keeps_the_least_cost_of_unit_graphs() {
    for bits in 0..1024 {
        let graph = unit_graph(5, bits);
        let mut reduced = graph.clone();
        critical(&mut reduced);
        assert_eq!(least_cost(&reduced), least_cost(&graph));
    }
}

#[test]
fn critical_can_raise_the_least_cost_where_weights_differ() {
    // 0 and 1 agree in sign on 2 and 3, but each is tied to another of the two
    let mut graph = Graph::new(4);
    graph.un_cut(0, 1, Edge::new(1));
    graph.un_cut(0, 2, Edge::new(10));
    graph.un_cut(1, 2, Edge::new(1));
    graph.un_cut(0, 3, Edge::new(1));
    graph.un_cut(1, 3, Edge::new(10));
    graph.un_cut(2, 3, Edge::new(-100));
    assert_eq!(least_cost(&graph), 3);
    let mut reduced = graph.clone();
    critical(&mut reduced);
    assert_eq!(reduced.root(0), reduced.root(1));
    assert_eq!(least_cost(&reduced), 11);
}

#[test]
fn greedy_packing_leaves_no_conflict_with_budget_on_all_pairs() {
    for bits in 0..1024 {
        let graph = unit_graph(5, bits);
        let mut packing = Packing::new(graph.vertex_merged.len());
        packing.pack(&graph);
        for a in 0..5 {
            for b in 0..a {
                for c in 0..b {
                    let positive = [(a, b), (a, c), (b, c)]
                        .iter()
                        .filter(|&&(x, y)| graph.edges.get(x, y).weight > 0)
                        .count();
                    if positive == 2 {
                        let spent = [(a, b), (a, c), (b, c)]
                            .iter()
                            .any(|&(x, y)| packing.edge_cost.get(x, y) == 1);
                        assert!(spent);
                    }
                }
            }
        }
    }
}

#[test]
fn a_copy_of_a_packing_holds_what_the_packing_holds() {
    let graph = unit_graph(5, 0b1011011101);
    let mut packing = Packing::new(graph.vertex_merged.len());
    packing.pack(&graph);
    let copy = packing.clone();
    assert_eq!(copy.lower, packing.lower);
    assert_eq!(copy.triples, packing.triples);
    for a in 0..5 {
        for b in 0..a {
            assert_eq!(copy.edge_cost.get(a, b), packing.edge_cost.get(a, b));
            assert_eq!(copy.edge_conflicts.get(a, b), packing.edge_conflicts.get(a, b));
        }
    }
}
