use cluster_lib::active::AllFrom;
use cluster_lib::graph::{remove_values, Edge, Graph, NEVER};
use cluster_lib::matrix::Matrix;
use cluster_lib::triple::Triple;

fn weighted(n: usize, edges: &[(usize, usize, i32)]) -> Graph {
    let mut graph = Graph::new(n);
    for &(a, b, w) in edges {
        graph.un_cut(a, b, Edge::new(w));
    }
    graph
}

fn sorted(list: &[usize]) -> Vec<usize> {
    let mut copy = list.to_vec();
    copy.sort_unstable();
    copy
}

#[test]
fn matrix_addresses_unordered_pairs() {
    let mut matrix = Matrix::new(0u32, 4);
    assert_eq!(matrix.len(), 4);
    matrix.set(3, 1, 7);
    assert_eq!(matrix.get(1, 3), 7);
    assert_eq!(matrix.get(3, 1), 7);
    assert_eq!(matrix.get(1, 2), 0);
    assert_eq!(matrix.get(3, 3), 0);
    matrix.set(1, 3, 9);
    assert_eq!(matrix.get(3, 1), 9);
    let copy = matrix.clone();
    assert_eq!(copy.get(1, 3), 9);
    assert_eq!(copy.get(0, 0), 0);
}

#[test]
fn edges_are_undecided_or_never() {
    assert_eq!(Edge::new(5), Edge { weight: 5, fixed: false });
    assert_eq!(Edge::none(), Edge { weight: -i32::MAX, fixed: true });
    assert_eq!(NEVER, -2147483647);
}

#[test]
fn new_graph_has_all_vertices_active_and_weight_minus_one() {
    let graph = Graph::new(3);
    assert_eq!(graph.active, vec![0, 1, 2]);
    assert_eq!(graph.len, 3);
    assert_eq!(graph.vertex_merged, vec![None; 6]);
    for a in 0..6 {
        for b in 0..6 {
            assert_eq!(graph.edges.get(a, b), Edge::new(-1));
        }
    }
    let empty = Graph::new(0);
    assert!(empty.active.is_empty());
    assert_eq!(empty.len, 0);
}

#[test]
fn remove_values_keeps_the_order_of_the_rest() {
    let mut list = vec![4, 1, 3, 1, 2];
    remove_values(&mut list, 1, 3);
    assert_eq!(list, vec![4, 2]);
    let mut other = vec![5, 6];
    remove_values(&mut other, 7, 7);
    assert_eq!(other, vec![5, 6]);
}

#[test]
fn merge_adds_weights_and_reports_its_cost() {
    // 0-1 positive; 2 agrees with both, 3 disagrees, 4 is fixed towards 0
    let mut graph = weighted(
        5,
        &[(0, 1, 2), (0, 2, 3), (1, 2, 4), (0, 3, 5), (1, 3, -2), (0, 4, 6), (1, 4, -7)],
    );
    graph.cut(0, 4);
    let (vv, cost) = graph.merge(0, 1);
    assert_eq!(vv, 5);
    // vertex 3: min(5, 2) = 2; vertex 4: fixed edge against -7, no disagreement
    assert_eq!(cost, 2);
    assert_eq!(graph.active, vec![2, 3, 4, 5]);
    assert_eq!(graph.len, 6);
    assert_eq!(graph.vertex_merged[0], Some(5));
    assert_eq!(graph.vertex_merged[1], Some(5));
    assert_eq!(graph.edges.get(5, 2), Edge::new(7));
    assert_eq!(graph.edges.get(5, 3), Edge::new(3));
    assert_eq!(graph.edges.get(5, 4), Edge::none());
    assert_eq!(graph.root(0), 5);
    assert_eq!(graph.root(1), 5);
    assert_eq!(graph.root(2), 2);
}

#[test]
fn merge_of_a_negative_pair_pays_for_the_pair() {
    let mut graph = weighted(3, &[(0, 1, -4), (0, 2, 1), (1, 2, 1)]);
    let (_, cost) = graph.merge(0, 1);
    assert_eq!(cost, 4);
    assert_eq!(graph.edges.get(3, 2), Edge::new(2));
}

#[test]
fn merge_against_a_fixed_positive_disagreement_pays_the_positive_edge() {
    let mut graph = weighted(3, &[(0, 1, 1), (0, 2, 3), (1, 2, 9)]);
    graph.cut(0, 2);
    let (vv, cost) = graph.merge(0, 1);
    assert_eq!(cost, 9);
    assert_eq!(graph.edges.get(vv, 2), Edge::none());
}

#[test]
fn un_merge_restores_what_can_be_observed() {
    let graph = weighted(4, &[(0, 1, 2), (1, 2, 3), (0, 3, -5), (2, 3, 1)]);
    let mut changed = graph.clone();
    let (vv, _) = changed.merge(1, 2);
    changed.un_merge(1, 2, vv);
    assert_eq!(sorted(&changed.active), sorted(&graph.active));
    assert_eq!(changed.active, vec![0, 3, 1, 2]);
    assert_eq!(changed.len, graph.len);
    assert_eq!(changed.vertex_merged, graph.vertex_merged);
    for a in 0..4 {
        for b in 0..4 {
            assert_eq!(changed.edges.get(a, b), graph.edges.get(a, b));
        }
    }
    assert!(changed.eq(&graph));
}

#[test]
fn cut_fixes_the_pair_and_un_cut_restores_it() {
    let graph = weighted(3, &[(0, 1, 4), (1, 2, -3)]);
    let mut changed = graph.clone();
    let removed = changed.cut(0, 1);
    assert_eq!(removed, Edge::new(4));
    assert_eq!(changed.edges.get(1, 0), Edge::none());
    assert_eq!(changed.edges.get(1, 2), Edge::new(-3));
    assert!(!changed.eq(&graph));
    let again = changed.cut(0, 1);
    assert_eq!(again, Edge::none());
    changed.un_cut(0, 1, removed);
    assert_eq!(changed.edges.get(0, 1), Edge::new(4));
    assert!(changed.eq(&graph));
}

#[test]
fn root_follows_merges_of_merges() {
    let mut graph = weighted(3, &[(0, 1, 1), (1, 2, 1), (0, 2, 1)]);
    let (first, _) = graph.merge(0, 1);
    let (second, _) = graph.merge(first, 2);
    assert_eq!(second, 4);
    for v in 0..3 {
        assert_eq!(graph.root(v), 4);
    }
    assert_eq!(graph.root(3), 4);
    assert_eq!(graph.root(4), 4);
    assert_eq!(graph.root(5), 5);
}

#[test]
fn positive_lists_positive_neighbours_from_a_position_on() {
    let graph = weighted(4, &[(0, 1, 1), (0, 2, -2), (0, 3, 5), (1, 3, 2)]);
    assert_eq!(graph.positive(0, 0), vec![(2, 1), (4, 3)]);
    assert_eq!(graph.positive(0, 2), vec![(4, 3)]);
    assert_eq!(graph.positive(3, 0), vec![(1, 0), (2, 1)]);
    assert_eq!(graph.positive(2, 0), vec![]);
    assert_eq!(graph.positive(0, 9), vec![]);
}

#[test]
fn conflict_edges_and_two_edges_look_at_third_vertices() {
    let graph = weighted(4, &[(0, 1, 1), (0, 2, 2), (1, 2, -1), (0, 3, 1), (1, 3, 1)]);
    assert_eq!(graph.conflict_edges(0, 1, 0), vec![(3, 2)]);
    assert_eq!(graph.conflict_edges(0, 1, 3), vec![]);
    assert_eq!(graph.two_edges(0, 1, 0), vec![(4, 3)]);
    assert_eq!(graph.two_edges(2, 3, 0), vec![(1, 0)]);
}

#[test]
fn clone_from_takes_over_the_source_and_keeps_older_merges_that_fit() {
    let mut source = weighted(3, &[(0, 1, 1)]);
    source.merge(0, 1);
    let mut target = Graph::new(3);
    target.vertex_merged[2] = Some(5);
    target.vertex_merged[4] = Some(5);
    target.clone_from(&source);
    assert_eq!(target.active, source.active);
    assert_eq!(target.len, 4);
    assert_eq!(target.vertex_merged[0], Some(3));
    assert_eq!(target.vertex_merged[1], Some(3));
    // 2 and 3 are active in the source; 4 pointed beyond the vertices of the source
    assert_eq!(target.vertex_merged[2], None);
    assert_eq!(target.vertex_merged[3], None);
    assert_eq!(target.vertex_merged[4], None);
    assert_eq!(target.edges.get(2, 3), source.edges.get(2, 3));
}

#[test]
fn eq_ignores_the_order_of_the_active_vertices() {
    let graph = weighted(3, &[(0, 1, 2)]);
    let mut other = graph.clone();
    other.active = vec![2, 0, 1];
    assert!(graph.eq(&other));
    other.active = vec![0, 1];
    assert!(!graph.eq(&other));
    let smaller = weighted(3, &[(0, 1, 3)]);
    assert!(!graph.eq(&smaller));
}

#[test]
fn walk_yields_vertices_with_the_position_behind_them() {
    let list = [7usize, 8, 9];
    let mut walk = list.as_slice().all(1);
    assert_eq!(walk.next(), Some((2, 8)));
    assert_eq!(walk.next(), Some((3, 9)));
    assert_eq!(walk.next(), None);
    assert_eq!(walk.next(), None);
    let mut late = list.as_slice().all(5);
    assert_eq!(late.next(), None);
}

#[test]
fn triples_are_kept_in_ascending_order() {
    let triple = Triple::new([9, 2, 5], 3);
    assert_eq!(triple.vertices, [2, 5, 9]);
    assert_eq!(triple.cost, 3);
    assert!(triple.vertex(5));
    assert!(!triple.vertex(4));
    assert!(triple.edge([9, 2]));
    assert!(triple.edge([5, 9]));
    assert!(!triple.edge([2, 4]));
    assert_eq!(Triple::new([1, 1, 0], 1).vertices, [0, 1, 1]);
}

#[test]
fn positive_edges_are_counted_and_weighed() {
    let graph = weighted(4, &[(0, 1, 3), (2, 3, 4), (0, 2, -9)]);
    assert_eq!(graph.edge_count(), 2);
    assert_eq!(graph.positive_weight(), 7);
    assert_eq!(Graph::new(0).edge_count(), 0);
    assert_eq!(Graph::new(5).positive_weight(), 0);
    let mut edges = graph.positive_edges();
    edges.sort_unstable();
    assert_eq!(edges, vec![(1, 0), (3, 2)]);
}

#[test]
fn well_formed_graphs_are_told_from_others() {
    let graph = weighted(4, &[(0, 1, 5), (2, 3, -7)]);
    assert!(graph.is_wf());
    assert!(graph.edges.is_wf());
    assert!(Graph::new(0).is_wf());
    let mut twice = graph.clone();
    twice.active.push(1);
    assert!(!twice.is_wf());
    let mut beyond = graph.clone();
    beyond.active[0] = 4;
    assert!(!beyond.is_wf());
    let mut merged = graph.clone();
    merged.vertex_merged[2] = Some(3);
    assert!(!merged.is_wf());
    let mut backwards = graph.clone();
    backwards.active = vec![0, 1];
    backwards.vertex_merged[3] = Some(2);
    assert!(!backwards.is_wf());
    let mut crowded = graph.clone();
    crowded.len = 5;
    assert!(!crowded.is_wf());
    let mut heavy = graph.clone();
    heavy.edges.set(0, 1, Edge::new(i32::MAX));
    heavy.edges.set(0, 2, Edge::new(i32::MAX));
    assert!(!heavy.is_wf());
    let mut least = graph.clone();
    least.edges.set(0, 1, Edge::new(i32::MIN));
    assert!(!least.is_wf());
    let mut odd = graph.clone();
    odd.edges.set(0, 1, Edge { weight: 3, fixed: true });
    assert!(!odd.is_wf());
    let mut fixed = graph.clone();
    fixed.cut(0, 1);
    fixed.cut(2, 3);
    assert!(fixed.is_wf());
    let mut after = graph.clone();
    after.merge(0, 1);
    assert!(after.is_wf());
}

#[test]
fn graphs_compare_by_what_can_be_observed() {
    let graph = weighted(3, &[(0, 1, 2)]);
    let mut other = graph.clone();
    other.active = vec![1, 2, 0];
    assert!(graph == other);
    other.cut(1, 2);
    assert!(graph != other);
    let mut broken = graph.clone();
    broken.active.push(0);
    assert!(broken != broken.clone());
    assert!(Graph::new(2) != Graph::new(3));
}
