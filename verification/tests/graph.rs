use formal_languages::graph::{EdgeType, Graph, IndNode};
use formal_languages::regular_expression::ReOperator;

fn sample() -> (Graph, IndNode, Vec<IndNode>) {
    let mut g = Graph::new();
    let s = g.add_node(None);
    let other: Vec<IndNode> = (0..4).into_iter().map(|_| g.add_node(None)).collect();
    g.add_edge(s, other[0], None);
    g.add_edge(s, other[1], None);
    g.add_edge(other[0], other[2], None);
    (g, s, other)
}

#[test]
#[allow(non_snake_case)]
fn Graph_bfs_test() {
    let (g, s, _) = sample();
    assert_eq!(vec![vec![0], vec![1, 2], vec![3], vec![4]], g.bfs(Some(s)));
}

#[test]
fn graph_bfs_test() {
    let (g, s, _) = sample();
    assert_eq!(vec![vec![0], vec![1, 2], vec![3], vec![4]], g.bfs(Some(s)));
}

#[test]
fn bfs_starts_where_it_is_told() {
    let (mut g, _, other) = sample();
    assert_eq!(g.bfs(Some(other[0])), vec![vec![1], vec![3], vec![0], vec![2], vec![4]]);
    g.start_node = Some(other[1]);
    assert_eq!(g.bfs(None), vec![vec![2], vec![0], vec![1], vec![3], vec![4]]);
    assert_eq!(Graph::new().bfs(None), Vec::<Vec<IndNode>>::new());
}

#[test]
fn bfs_takes_every_node_once_on_a_cycle() {
    let mut g = Graph::new();
    let a = g.add_node(None);
    let b = g.add_node(None);
    let c = g.add_node(None);
    g.add_edge(a, b, None);
    g.add_edge(b, c, None);
    g.add_edge(c, a, None);
    g.add_edge(a, c, None);
    assert_eq!(g.bfs(None), vec![vec![0], vec![1, 2]]);
}

#[test]
fn nodes_and_edges_keep_their_numbers() {
    let (g, _, _) = sample();
    assert_eq!(g.get_nodes_ids(), vec![0, 1, 2, 3, 4]);
    assert_eq!(g.get_edges_ids(), vec![0, 1, 2]);
    assert_eq!(g.get_node_edges(0), &vec![0, 1]);
    assert_eq!(g.get_node_edges(1), &vec![2]);
    assert_eq!(g.get_nodes().len(), 5);
    assert_eq!(g.get_node_label(3), &None);
}

#[test]
fn edge_types_tell_loops_and_pairs() {
    let mut g = Graph::new();
    let a = g.add_node(Some("a".to_string()));
    let b = g.add_node(Some("b".to_string()));
    let c = g.add_node(None);
    g.add_edge(a, a, None);
    g.add_edge(a, b, None);
    g.add_edge(b, a, Some("back".to_string()));
    g.add_edge(b, c, None);
    assert_eq!(
        g.edge_types(),
        vec![EdgeType::SELFLOOP, EdgeType::COLLIDING, EdgeType::COLLIDING, EdgeType::DIRECTED]
    );
    assert!(g.is_linked(b, c));
    assert!(!g.is_linked(c, b));
}

#[test]
fn tree_of_an_expression() {
    let tree = ReOperator::from_string(&"a(b|c)*".to_string()).unwrap();
    let g = tree.into_graph();
    let labels: Vec<Option<String>> = g.get_nodes().iter().map(|n| n.label.clone()).collect();
    let expected: Vec<Option<String>> = ["\u{b7}", "a", "*", "|", "b", "c"]
        .iter()
        .map(|s| Some(s.to_string()))
        .collect();
    assert_eq!(labels, expected);
    let edges: Vec<(usize, usize)> = g.edges.iter().map(|e| (e.from, e.to)).collect();
    assert_eq!(edges, vec![(0, 1), (3, 4), (3, 5), (2, 3), (0, 2)]);
    assert_eq!(tree.label(), "\u{b7}");
    assert_eq!(g.bfs(None), vec![vec![0], vec![1, 2], vec![3], vec![4, 5]]);
}
