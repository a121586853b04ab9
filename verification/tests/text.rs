use cluster_lib::graph::Edge;
use cluster_lib::load::InvalidInput;
use cluster_lib::search::Solver;
use cluster_lib::text::{parse, read};

#[test]
fn read_takes_the_header_and_the_edges() {
    let text = b"c a path\np cep 4 3\n1 2\nc in between\n2 3\n3 4\n";
    assert_eq!(read(text), Ok((4, vec![(1, 2), (2, 3), (3, 4)])));
    assert_eq!(read(b"p cep 2 0"), Ok((2, vec![])));
    assert_eq!(read(b"p cep 2 1\r\n2 1\r\n"), Ok((2, vec![(2, 1)])));
    assert_eq!(read(b"p cep 7\n3 5 ignored\n"), Ok((7, vec![(3, 5)])));
    assert_eq!(read(b"p cep 0 0\n"), Ok((0, vec![])));
}

#[test]
fn read_refuses_what_is_no_instance() {
    assert_eq!(read(b""), Err(InvalidInput));
    assert_eq!(read(b"c only a comment\n"), Err(InvalidInput));
    assert_eq!(read(b"1 2\n"), Err(InvalidInput));
    assert_eq!(read(b"p cap 3 1\n"), Err(InvalidInput));
    assert_eq!(read(b"p cep\n"), Err(InvalidInput));
    assert_eq!(read(b"p cep x 1\n"), Err(InvalidInput));
    assert_eq!(read(b"p  cep 3 1\n"), Err(InvalidInput));
    assert_eq!(read(b"p cep 3 1\n1\n"), Err(InvalidInput));
    assert_eq!(read(b"p cep 3 1\n1 b\n"), Err(InvalidInput));
    assert_eq!(read(b"p cep 3 1\n\n1 2\n"), Err(InvalidInput));
    assert_eq!(read(b"p cep 3 1\n-1 2\n"), Err(InvalidInput));
    assert_eq!(read(b"p cep 99999999999999999999999999 1\n"), Err(InvalidInput));
    assert_eq!(read(b"comment\np cep 3 1\n"), Err(InvalidInput));
}

#[test]
fn read_takes_the_largest_number_that_fits() {
    let text = format!("p cep {} 0\n", usize::MAX);
    assert_eq!(read(text.as_bytes()), Ok((usize::MAX, vec![])));
    let mut digits = usize::MAX.to_string().into_bytes();
    let last = digits.len() - 1;
    digits[last] += 1;
    let mut text = b"p cep ".to_vec();
    text.extend_from_slice(&digits);
    assert_eq!(read(&text), Err(InvalidInput));
}

#[test]
fn parse_builds_the_graph_of_the_text() {
    let graph = parse(b"p cep 3 2\n1 2\n2 3\n").unwrap();
    assert_eq!(graph.active, vec![0, 1, 2]);
    assert_eq!(graph.edges.get(0, 1), Edge::new(1));
    assert_eq!(graph.edges.get(1, 2), Edge::new(1));
    assert_eq!(graph.edges.get(0, 2), Edge::new(-1));
    let mut solver = Solver::new(graph);
    solver.search_components();
    assert_eq!(solver.upper, 1);
}

#[test]
fn parse_refuses_edges_that_name_no_pair() {
    assert_eq!(parse(b"p cep 3 1\n1 4\n").err(), Some(InvalidInput));
    assert_eq!(parse(b"p cep 3 1\n0 1\n").err(), Some(InvalidInput));
    assert_eq!(parse(b"p cep 3 1\n2 2\n").err(), Some(InvalidInput));
    assert_eq!(parse(b"p cep 100000 0\n").err(), Some(InvalidInput));
    assert_eq!(parse(b"not an instance").err(), Some(InvalidInput));
}
