use cluster_lib::graph::{Edge, Graph};
use cluster_lib::search::Solver;

fn graph_with(n: usize, edges: &[(usize, usize, i32)]) -> Graph {
    let mut graph = Graph::new(n);
    for &(a, b, w) in edges {
        graph.un_cut(a, b, Edge::new(w));
    }
    graph
}

/// The cost of the clustering that the roots of `solution` induce on `input`.
fn cost_of(input: &Graph, solution: &Graph, n: usize) -> u32 {
    let mut cost = 0;
    for a in 0..n {
        for b in 0..a {
            let w = input.edges.get(a, b).weight;
            let together = solution.root(a) == solution.root(b);
            if together && w < 0 {
                cost += (-w) as u32;
            }
            if !together && w > 0 {
                cost += w as u32;
            }
        }
    }
    cost
}

/// The least cost over all clusterings, by trying every labelling.
fn brute_force(input: &Graph, n: usize) -> u32 {
    fn go(input: &Graph, n: usize, labels: &mut Vec<usize>, used: usize, best: &mut u32) {
        let v = labels.len();
        if v == n {
            let mut cost = 0u32;
            for a in 0..n {
                for b in 0..a {
                    let w = input.edges.get(a, b).weight;
                    if labels[a] == labels[b] && w < 0 {
                        cost += (-w) as u32;
                    }
                    if labels[a] != labels[b] && w > 0 {
                        cost += w as u32;
                    }
                }
            }
            if cost < *best {
                *best = cost;
            }
            return;
        }
        for label in 0..=used {
            labels.push(label);
            go(input, n, labels, if label == used { used + 1 } else { used }, best);
            labels.pop();
        }
    }
    let mut best = u32::MAX;
    go(input, n, &mut Vec::new(), 0, &mut best);
    best
}

struct Lcg(u64);

impl Lcg {
    fn next(&mut self, bound: u64) -> u64 {
        self.0 = self.0.wrapping_mul(6364136223846793005).wrapping_add(1442695040888963407);
        (self.0 >> 33) % bound
    }
}

fn random_graph(rng: &mut Lcg, n: usize, span: i32) -> Graph {
    let mut graph = Graph::new(n);
    for a in 0..n {
        for b in 0..a {
            let w = rng.next((2 * span + 1) as u64) as i32 - span;
            graph.un_cut(a, b, Edge::new(w));
        }
    }
    graph
}

#[test]
fn triangle_with_one_inconsistent_edge_costs_one() {
    let graph = graph_with(3, &[(0, 1, 1), (1, 2, 1), (0, 2, -1)]);
    let mut solver = Solver::new(graph.clone());
    assert_eq!(solver.packing.lower, 1);
    assert_eq!(solver.upper, 2);
    solver.search_components();
    assert_eq!(solver.upper, 1);
    assert_eq!(cost_of(&graph, &solver.best, 3), 1);
}

#[test]
fn consistent_pair_costs_nothing() {
    let graph = graph_with(2, &[(0, 1, 3)]);
    let mut solver = Solver::new(graph.clone());
    assert_eq!(solver.upper, 3);
    solver.search_components();
    assert_eq!(solver.upper, 0);
    assert_eq!(solver.best.root(0), solver.best.root(1));
}

#[test]
fn separated_pair_costs_nothing() {
    let graph = graph_with(2, &[(0, 1, -4)]);
    let mut solver = Solver::new(graph.clone());
    solver.search_components();
    assert_eq!(solver.upper, 0);
    assert_ne!(solver.best.root(0), solver.best.root(1));
}

#[test]
fn two_disjoint_conflicts_cost_two() {
    let graph = graph_with(
        6,
        &[(0, 1, 1), (1, 2, 1), (0, 2, -1), (3, 4, 1), (4, 5, 1), (3, 5, -1)],
    );
    let mut solver = Solver::new(graph.clone());
    solver.search_components();
    assert_eq!(solver.upper, 2);
    assert_eq!(cost_of(&graph, &solver.best, 6), 2);
    let mut single = Solver::new(graph.clone());
    single.search_graph();
    assert_eq!(single.upper, 2);
    assert_eq!(cost_of(&graph, &single.best, 6), 2);
}

#[test]
fn empty_graph_costs_nothing() {
    let mut solver = Solver::new(Graph::new(0));
    solver.search_components();
    assert_eq!(solver.upper, 0);
    let mut plain = Solver::new(Graph::new(0));
    plain.search_graph();
    assert_eq!(plain.upper, 0);
}

#[test]
fn search_finds_the_least_cost_of_small_graphs() {
    let mut rng = Lcg(7);
    for round in 0..60 {
        let n = 1 + (round % 7);
        let graph = random_graph(&mut rng, n, 3);
        let expected = brute_force(&graph, n);
        let mut solver = Solver::new(graph.clone());
        solver.search_graph();
        assert_eq!(solver.upper, expected);
        assert_eq!(cost_of(&graph, &solver.best, n), expected);
        let mut by_parts = Solver::new(graph.clone());
        by_parts.search_components();
        assert_eq!(by_parts.upper, expected);
        assert_eq!(cost_of(&graph, &by_parts.best, n), expected);
    }
}

#[test]
fn search_restores_the_graph() {
    let mut rng = Lcg(11);
    for _ in 0..20 {
        let graph = random_graph(&mut rng, 6, 2);
        let mut solver = Solver::new(graph.clone());
        solver.search_components();
        let mut before = graph.active.clone();
        let mut after = solver.graph.active.clone();
        before.sort_unstable();
        after.sort_unstable();
        assert_eq!(before, after);
        assert_eq!(solver.graph.len, graph.len);
        for a in 0..6 {
            assert_eq!(solver.graph.vertex_merged[a], None);
            for b in 0..a {
                assert_eq!(solver.graph.edges.get(a, b), graph.edges.get(a, b));
            }
        }
    }
}

#[test]
fn lower_bound_never_exceeds_the_least_cost() {
    let mut rng = Lcg(13);
    for round in 0..60 {
        let n = 3 + (round % 5);
        let graph = random_graph(&mut rng, n, 4);
        let solver = Solver::new(graph.clone());
        assert!(solver.packing.lower <= brute_force(&graph, n));
    }
}

#[test]
fn repeated_runs_report_the_same_cost() {
    let mut rng = Lcg(17);
    let graph = random_graph(&mut rng, 7, 3);
    let mut first = Solver::new(graph.clone());
    first.search_components();
    let mut second = Solver::new(graph.clone());
    second.search_components();
    assert_eq!(first.upper, second.upper);
    for a in 0..7 {
        assert_eq!(first.best.root(a), second.best.root(a));
    }
}
