use cluster_lib::branch::EdgeMod;
use cluster_lib::component::{add_connected, Components};
use cluster_lib::critical::{critical, propagate};
use cluster_lib::finish::finish_solve;
use cluster_lib::graph::{Edge, Graph};
use cluster_lib::load::{build, InvalidInput};
use cluster_lib::search::Solver;
use cluster_lib::simplify::{cut_all, simplify};

fn weighted(n: usize, edges: &[(usize, usize, i32)]) -> Graph {
    let mut graph = Graph::new(n);
    for &(a, b, w) in edges {
        graph.un_cut(a, b, Edge::new(w));
    }
    graph
}

#[test]
fn best_edge_takes_the_first_pair_with_most_conflicts() {
    let mut solver = Solver::new(weighted(4, &[(0, 1, 1), (0, 2, 1), (0, 3, 1)]));
    assert_eq!(solver.best_edge(), EdgeMod::Cut(0, 1));
    let mut path = Solver::new(weighted(4, &[(0, 1, 1), (1, 2, 1), (2, 3, 1)]));
    assert_eq!(path.best_edge(), EdgeMod::Cut(1, 2));
    let mut calm = Solver::new(weighted(4, &[(0, 1, 1), (2, 3, 1)]));
    assert_eq!(calm.best_edge(), EdgeMod::Nothing);
    assert_eq!(Solver::new(Graph::new(0)).best_edge(), EdgeMod::Nothing);
}

#[test]
fn best_edge_tries_the_merge_first_where_the_edge_is_heavy() {
    let mut solver = Solver::new(weighted(3, &[(0, 1, 5), (1, 2, 1), (0, 2, -1)]));
    assert_eq!(solver.best_edge(), EdgeMod::Merge(0, 1));
    let mut light = Solver::new(weighted(3, &[(0, 1, 1), (1, 2, 1), (0, 2, -1)]));
    assert_eq!(light.best_edge(), EdgeMod::Cut(0, 1));
}

#[test]
fn best_edge_passes_over_fixed_pairs() {
    let mut graph = weighted(3, &[(0, 1, 1), (1, 2, 1), (0, 2, -1)]);
    graph.cut(0, 1);
    graph.cut(1, 2);
    let mut solver = Solver::new(graph);
    assert_eq!(solver.best_edge(), EdgeMod::Nothing);
}

#[test]
fn the_two_branches_each_find_their_best() {
    let graph = weighted(3, &[(0, 1, 3), (1, 2, 2), (0, 2, -4)]);
    let mut merging = Solver::new(graph.clone());
    merging.search_merge(0, 1);
    // together: either 2 leaves (cost 2) or joins against the -4 (cost 4)
    assert_eq!(merging.upper, 2);
    let mut cutting = Solver::new(graph.clone());
    cutting.search_cut(0, 1);
    // apart: cutting 0-1 costs 3, then nothing is left to pay
    assert_eq!(cutting.upper, 3);
    let mut whole = Solver::new(graph);
    whole.search_graph();
    assert_eq!(whole.upper, 2);
    assert_eq!(whole.best.root(0), whole.best.root(1));
    assert_ne!(whole.best.root(1), whole.best.root(2));
}

#[test]
fn a_branch_leaves_the_bound_alone_where_it_cannot_do_better() {
    let graph = weighted(3, &[(0, 1, 3), (1, 2, 2), (0, 2, -4)]);
    let mut solver = Solver::new(graph);
    assert_eq!(solver.upper, 5);
    solver.search_merge(0, 1);
    assert_eq!(solver.upper, 2);
    let kept = solver.best.clone();
    solver.search_cut(0, 1);
    assert_eq!(solver.upper, 2);
    assert!(solver.best.eq(&kept));
    for v in 0..3 {
        assert_eq!(solver.best.root(v), kept.root(v));
    }
}

#[test]
fn a_branch_hands_the_packing_back_as_it_was() {
    let graph = weighted(4, &[(0, 1, 3), (1, 2, 2), (0, 2, -4), (2, 3, 1), (1, 3, -1)]);
    let mut solver = Solver::new(graph.clone());
    let lower = solver.packing.lower;
    let triples = solver.packing.triples.clone();
    assert!(lower > 0);
    solver.search_merge(0, 1);
    assert_eq!(solver.packing.lower, lower);
    assert_eq!(solver.packing.triples, triples);
    assert!(solver.graph.eq(&graph));
    solver.search_cut(1, 2);
    assert_eq!(solver.packing.lower, lower);
    assert_eq!(solver.packing.triples, triples);
    assert!(solver.graph.eq(&graph));
    solver.search_graph();
    assert_eq!(solver.packing.lower, lower);
    assert_eq!(solver.packing.triples, triples);
}

#[test]
fn a_graph_without_conflicts_is_its_own_solution() {
    let graph = weighted(5, &[(0, 1, 1), (1, 2, 2), (0, 2, 3), (3, 4, 1)]);
    let mut solver = Solver::new(graph.clone());
    assert!(solver.upper > 0);
    solver.search_graph();
    assert_eq!(solver.upper, 0);
    for a in 0..5 {
        for b in 0..a {
            let together = solver.best.root(a) == solver.best.root(b);
            assert_eq!(together, graph.edges.get(a, b).weight > 0);
        }
    }
}

#[test]
fn add_connected_marks_what_positive_edges_lead_to() {
    let graph = weighted(5, &[(0, 1, 1), (1, 2, 1), (3, 4, 1), (2, 3, -5)]);
    let mut marks = vec![false; 10];
    add_connected(&graph, 1, &mut marks);
    assert_eq!(&marks[..5], &[true, true, true, false, false]);
    // a mark on the way keeps the walk from going on
    let path = weighted(4, &[(0, 1, 1), (1, 2, 1), (2, 3, 1)]);
    let mut blocked = vec![false; 8];
    blocked[2] = true;
    add_connected(&path, 0, &mut blocked);
    assert_eq!(&blocked[..4], &[true, true, true, false]);
}

#[test]
fn components_are_set_aside_and_brought_back() {
    let mut graph = weighted(5, &[(0, 2, 1), (2, 4, 1), (1, 3, 1)]);
    let mut components = Components::new(10);
    components.un_active.push(9);
    let others = components.isolate_component(&mut graph);
    assert_eq!(others, 2);
    assert_eq!(graph.active, vec![0, 2, 4]);
    assert_eq!(components.un_active, vec![9, 1, 3]);
    let one = components.other_component(&mut graph.active, others);
    assert_eq!(one, 3);
    assert_eq!(graph.active, vec![1, 3]);
    assert_eq!(components.un_active, vec![9, 0, 2, 4]);
    components.all_components(&mut graph.active, one);
    assert_eq!(graph.active, vec![1, 3, 0, 2, 4]);
    assert_eq!(components.un_active, vec![9]);
    assert_eq!(Components::new(0).isolate_component(&mut Graph::new(0)), 0);
    let mut whole = weighted(3, &[(0, 1, 1), (1, 2, 1)]);
    assert_eq!(Components::new(6).isolate_component(&mut whole), 0);
    assert_eq!(whole.active, vec![0, 1, 2]);
}

#[test]
fn finish_solve_makes_one_vertex_of_every_cluster() {
    let mut graph = weighted(5, &[(0, 1, 1), (1, 2, 2), (0, 2, 3), (3, 4, 1)]);
    assert!(graph.is_easy());
    graph.check_easy();
    finish_solve(&mut graph);
    assert_eq!(graph.root(0), graph.root(1));
    assert_eq!(graph.root(1), graph.root(2));
    assert_eq!(graph.root(3), graph.root(4));
    assert_ne!(graph.root(0), graph.root(3));
    assert_eq!(graph.active.len(), 2);
    assert_eq!(graph.len, 8);
}

#[test]
fn is_easy_tells_whether_a_conflict_is_left() {
    assert!(Graph::new(4).is_easy());
    assert!(weighted(3, &[(0, 1, 1), (1, 2, 1), (0, 2, 1)]).is_easy());
    assert!(!weighted(3, &[(0, 1, 1), (1, 2, 1), (0, 2, -1)]).is_easy());
    assert!(!weighted(4, &[(2, 3, 1), (1, 3, 1)]).is_easy());
}

#[test]
fn check_easy_goes_through_a_graph_without_conflicts() {
    Graph::new(4).check_easy();
    Graph::new(0).check_easy();
    weighted(5, &[(0, 1, 1), (1, 2, 2), (0, 2, 3), (3, 4, 1)]).check_easy();
}

#[test]
fn critical_merges_vertices_that_agree_on_all_others() {
    // 0 and 1 share a positive edge and agree on 2 and 3; 2-3 is left alone by 3's edge to 4
    let mut graph = weighted(
        5,
        &[(0, 1, 1), (0, 2, 2), (1, 2, 2), (0, 3, -1), (1, 3, -2), (2, 3, 1), (3, 4, 1)],
    );
    critical(&mut graph);
    assert_eq!(graph.root(0), graph.root(1));
    assert_ne!(graph.root(0), graph.root(2));
    assert_ne!(graph.root(2), graph.root(3));
    assert_ne!(graph.root(3), graph.root(4));
    assert_eq!(graph.active.len(), 4);
    let merged = graph.root(0);
    assert_eq!(graph.edges.get(merged, 2), Edge::new(4));
    assert_eq!(graph.edges.get(merged, 3), Edge::new(-3));
    let mut clique = weighted(3, &[(0, 1, 1), (1, 2, 1), (0, 2, 1)]);
    critical(&mut clique);
    assert_eq!(clique.active.len(), 1);
    let mut apart = Graph::new(3);
    critical(&mut apart);
    assert_eq!(apart.active, vec![0, 1, 2]);
}

#[test]
fn propagate_cuts_negative_pairs_without_a_common_friend() {
    let mut graph = weighted(4, &[(0, 1, 1), (1, 2, 1), (0, 2, -3), (0, 3, -2), (2, 3, 0)]);
    propagate(&mut graph);
    // 0 and 2 share the friend 1; 0-3 and 1-3 do not share any; 2-3 weighs nothing
    assert_eq!(graph.edges.get(0, 2), Edge::new(-3));
    assert_eq!(graph.edges.get(0, 3), Edge::none());
    assert_eq!(graph.edges.get(1, 3), Edge::none());
    assert_eq!(graph.edges.get(2, 3), Edge::new(0));
    assert_eq!(graph.edges.get(0, 1), Edge::new(1));
    assert_eq!(graph.active, vec![0, 1, 2, 3]);
}

#[test]
fn cut_all_cuts_the_pairs_that_are_listed() {
    let mut graph = weighted(4, &[(0, 1, 1), (1, 2, 1), (2, 3, 1)]);
    cut_all(&mut graph, &vec![(1, 0), (2, 3)]);
    assert_eq!(graph.edges.get(0, 1), Edge::none());
    assert_eq!(graph.edges.get(2, 3), Edge::none());
    assert_eq!(graph.edges.get(1, 2), Edge::new(1));
    assert_eq!(graph.edge_count(), 1);
}

#[test]
fn simplify_leaves_the_number_of_positive_edges_asked_for() {
    let edges = [(0, 1, 1), (1, 2, 2), (2, 3, 3), (3, 4, 4), (0, 4, 5), (1, 3, 6)];
    for keep in 0..8 {
        let mut graph = weighted(5, &edges);
        simplify(&mut graph, keep);
        assert_eq!(graph.edge_count() as usize, keep.min(6));
        for &(a, b, w) in &edges {
            let edge = graph.edges.get(a, b);
            assert!(edge == Edge::new(w) || edge == Edge::none());
        }
        assert_eq!(graph.edges.get(0, 2), Edge::new(-1));
    }
}

#[test]
fn build_sets_the_listed_edges() {
    let graph = build(4, &vec![(1, 2), (4, 3), (2, 1)]).unwrap();
    assert_eq!(graph.active, vec![0, 1, 2, 3]);
    assert_eq!(graph.edges.get(0, 1), Edge::new(1));
    assert_eq!(graph.edges.get(2, 3), Edge::new(1));
    assert_eq!(graph.edges.get(0, 2), Edge::new(-1));
    assert_eq!(graph.edge_count(), 2);
    assert!(build(0, &vec![]).unwrap().active.is_empty());
}

#[test]
fn build_refuses_what_names_no_pair() {
    assert_eq!(build(3, &vec![(0, 1)]).err(), Some(InvalidInput));
    assert_eq!(build(3, &vec![(1, 4)]).err(), Some(InvalidInput));
    assert_eq!(build(3, &vec![(2, 2)]).err(), Some(InvalidInput));
    assert_eq!(build(3, &vec![(1, 2), (3, 0)]).err(), Some(InvalidInput));
    assert_eq!(build(70000, &vec![]).err(), Some(InvalidInput));
}

#[test]
fn solution_lists_count_vertices_from_one() {
    let input = build(4, &vec![(1, 2), (2, 3), (3, 4)]).unwrap();
    let mut solver = Solver::new(input.clone());
    solver.search_components();
    assert_eq!(solver.upper, 1);
    let edits = input.solution_edits(&solver.best);
    assert_eq!(edits.len(), 1);
    let edges = input.solution_edges(&solver.best);
    assert_eq!(edges.len(), 2);
    for &(a, b) in &edges {
        assert!(a < b && 1 <= a && b <= 4);
        assert_eq!(solver.best.root(a - 1), solver.best.root(b - 1));
    }
    let alone = Graph::new(3);
    assert_eq!(alone.solution_edits(&alone), vec![]);
    assert_eq!(alone.solution_edges(&alone), vec![]);
    let merged = {
        let mut output = Graph::new(3);
        output.merge(0, 2);
        output
    };
    assert_eq!(alone.solution_edits(&merged), vec![(1, 3)]);
    assert_eq!(alone.solution_edges(&merged), vec![(1, 3)]);
}

#[test]
fn reductions_keep_the_least_cost_within_reach() {
    // each clustering of the reduced graph is one of the graph before,
    // so the least cost can only go up
    let graph = weighted(
        5,
        &[(0, 1, 1), (0, 2, 1), (1, 2, 1), (2, 3, 1), (3, 4, 1), (0, 3, -1), (1, 3, -1)],
    );
    let mut plain = Solver::new(graph.clone());
    plain.search_components();
    let mut reduced = graph.clone();
    critical(&mut reduced);
    propagate(&mut reduced);
    let mut solver = Solver::new(reduced);
    solver.search_components();
    assert!(solver.upper >= plain.upper);
    assert_eq!(plain.upper, 1);
    assert_eq!(solver.upper, 1);
}
