use cluster_lib::graph::{Edge, Graph};
use cluster_lib::kernel::{kernel2, kernelize, Step};
use cluster_lib::search::Solver;

fn weighted(n: usize, edges: &[(usize, usize, i32)]) -> Graph {
    let mut graph = Graph::new(n);
    for &(a, b, w) in edges {
        graph.un_cut(a, b, Edge::new(w));
    }
    graph
}

fn least_cost(graph: &Graph) -> u32 {
    let mut solver = Solver::new(graph.clone());
    solver.search_components();
    solver.upper
}

#[test]
fn kernelize_closes_an_almost_closed_neighbourhood() {
    // 0 has the neighbours 1, 2, 3; only the edge 2-3 is missing
    let graph = weighted(4, &[(0, 1, 1), (0, 2, 1), (0, 3, 1), (1, 2, 1), (1, 3, 1)]);
    let mut reduced = graph.clone();
    let cost = kernelize(&mut reduced);
    assert_eq!(cost, 1);
    assert_eq!(reduced.active.len(), 1);
    let root = reduced.root(0);
    for v in 1..4 {
        assert_eq!(reduced.root(v), root);
    }
    assert_eq!(least_cost(&graph), 1);
}

#[test]
fn kernelize_leaves_an_open_neighbourhood_alone() {
    let graph = weighted(4, &[(0, 1, 1), (0, 2, 1), (0, 3, 1)]);
    let mut reduced = graph.clone();
    assert_eq!(kernelize(&mut reduced), 0);
    assert_eq!(reduced.active, vec![0, 1, 2, 3]);
    assert!(reduced.eq(&graph));
    assert_eq!(kernelize(&mut Graph::new(0)), 0);
}

#[test]
fn kernelize_passes_over_a_pair_that_is_fixed() {
    let mut graph = weighted(3, &[(0, 1, 1), (0, 2, 1), (1, 2, 1)]);
    graph.cut(1, 2);
    let before = least_cost(&graph);
    let cost = kernelize(&mut graph);
    assert!(cost + least_cost(&graph) >= before);
}

#[test]
fn single_conflict_finds_the_first_edge_with_something_to_do() {
    // a path 0 - 1 - 2: 0 and 2 agree on the only other vertex, and are apart themselves
    let short = weighted(3, &[(0, 1, 1), (1, 2, 1)]);
    assert_eq!(short.single_conflict(), Step::Join(0, 2));
    // a path 0 - 1 - 2 - 3: 0 and 2 share no neighbour but 1
    let long = weighted(4, &[(0, 1, 1), (1, 2, 1), (2, 3, 1)]);
    assert_eq!(long.single_conflict(), Step::Part(1, 2));
    assert_eq!(Graph::new(3).single_conflict(), Step::Rest);
    let clique = weighted(3, &[(0, 1, 1), (1, 2, 1), (0, 2, 1)]);
    assert_eq!(clique.single_conflict(), Step::Rest);
    let mut fixed = short.clone();
    fixed.cut(0, 2);
    assert_eq!(fixed.single_conflict(), Step::Rest);
}

#[test]
fn kernel2_settles_single_conflicts_and_reports_the_cost() {
    let short = weighted(3, &[(0, 1, 1), (1, 2, 1)]);
    let mut reduced = short.clone();
    let cost = kernel2(&mut reduced);
    assert_eq!(cost, 1);
    assert_eq!(reduced.root(0), reduced.root(2));
    assert_eq!(reduced.edges.get(reduced.root(0), 1), Edge::new(2));
    assert_eq!(least_cost(&short), 1);
    assert_eq!(least_cost(&reduced), 0);
    let long = weighted(4, &[(0, 1, 1), (1, 2, 1), (2, 3, 1)]);
    let mut cut = long.clone();
    let cost = kernel2(&mut cut);
    assert_eq!(cost, 1);
    assert_eq!(cut.edges.get(1, 2), Edge::none());
    assert_eq!(least_cost(&long), 1);
    assert_eq!(least_cost(&cut), 0);
    let mut calm = weighted(4, &[(0, 1, 1), (2, 3, 1)]);
    assert_eq!(kernel2(&mut calm), 0);
    assert_eq!(calm.active, vec![0, 1, 2, 3]);
}

#[test]
fn kernels_never_promise_less_than_the_least_cost() {
    let mut seed: u64 = 5;
    for round in 0..40 {
        let n = 3 + round % 4;
        let mut graph = Graph::new(n);
        for a in 0..n {
            for b in 0..a {
                seed = seed.wrapping_mul(6364136223846793005).wrapping_add(1442695040888963407);
                if (seed >> 33) % 2 == 0 {
                    graph.un_cut(a, b, Edge::new(1));
                }
            }
        }
        let least = least_cost(&graph);
        let mut one = graph.clone();
        let paid = kernelize(&mut one);
        assert!(paid + least_cost(&one) >= least);
        let mut two = graph.clone();
        let paid = kernel2(&mut two);
        assert!(paid + least_cost(&two) >= least);
    }
}

#[test]
fn almost_closed_counts_the_disagreements_of_the_neighbours() {
    let closed = weighted(4, &[(0, 1, 1), (0, 2, 1), (0, 3, 1), (1, 2, 1), (1, 3, 1)]);
    // the neighbours 2 and 3 of 0 disagree with it on one vertex each
    assert!(closed.almost_closed(0));
    let star = weighted(4, &[(0, 1, 1), (0, 2, 1), (0, 3, 1)]);
    // each of the three neighbours of 0 disagrees with it on the two others
    assert!(!star.almost_closed(0));
    // the one neighbour of 1 disagrees with it on two vertices
    assert!(!star.almost_closed(1));
    assert!(Graph::new(2).almost_closed(0));
    let pair = weighted(2, &[(0, 1, 1)]);
    assert!(pair.almost_closed(0));
}

fn unit_graph(n: usize, mut bits: u32) -> Graph {
    let mut graph = Graph::new(n);
    for a in 0..n {
        for b in 0..a {
            if bits % 2 == 1 {
                graph.un_cut(a, b, Edge::new(1));
            }
            bits /= 2;
        }
    }
    graph
}

#[test]
fn kernel2_runs_until_nothing_is_left_to_do() {
    for bits in 0..1024 {
        let mut graph = unit_graph(5, bits);
        kernel2(&mut graph);
        assert_eq!(graph.single_conflict(), Step::Rest);
    }
}

#[test]
fn kernel2_pays_for_the_first_step() {
    // the first thing to do on the path is the merge of its ends, at the cost of their edge
    let mut path = weighted(3, &[(0, 1, 1), (1, 2, 1), (0, 2, -5)]);
    assert_eq!(path.single_conflict(), Step::Join(0, 2));
    assert_eq!(kernel2(&mut path), 5);
}

#[test]
fn kernel2_keeps_the_least_cost_of_small_graphs_of_unit_weights() {
    for bits in 0..64 {
        let graph = unit_graph(4, bits);
        let mut reduced = graph.clone();
        let paid = kernel2(&mut reduced);
        assert_eq!(paid + least_cost(&reduced), least_cost(&graph));
    }
    for bits in 0..1024 {
        let graph = unit_graph(5, bits);
        let mut reduced = graph.clone();
        let paid = kernel2(&mut reduced);
        assert_eq!(paid + least_cost(&reduced), least_cost(&graph));
    }
}

#[test]
fn kernel2_can_pay_more_than_the_least_cost_where_weights_differ() {
    let path = weighted(3, &[(0, 1, 1), (1, 2, 1), (0, 2, -5)]);
    let mut reduced = path.clone();
    assert_eq!(kernel2(&mut reduced), 5);
    assert_eq!(least_cost(&reduced), 0);
    assert_eq!(least_cost(&path), 1);
}

#[test]
fn kernelize_can_pay_more_than_the_least_cost() {
    let graph = weighted(5, &[(0, 1, 1), (0, 2, 1), (1, 2, 1), (1, 3, 1), (2, 3, 1), (3, 4, 1)]);
    let mut reduced = graph.clone();
    assert_eq!(kernelize(&mut reduced), 4);
    assert_eq!(reduced.active.len(), 1);
    assert_eq!(least_cost(&reduced), 0);
    assert_eq!(least_cost(&graph), 2);
}

#[test]
fn kernelize_goes_by_the_graph_as_it_is_at_each_turn() {
    // 0 takes 1 in; by the turn of 2 its only neighbour is the merged vertex
    let mut graph = weighted(3, &[(0, 1, 1), (1, 2, 1)]);
    let cost = kernelize(&mut graph);
    assert_eq!(graph.root(0), graph.root(1));
    assert_eq!(cost + least_cost(&graph), 1);
}
