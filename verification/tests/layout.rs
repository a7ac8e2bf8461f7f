use wltile::config::{Alignment, Relation};
use wltile::layout::{GraphIterator, LayoutGraph, Node};
use wltile::point::Point;

fn node(name: &str, position: Point, width: i32, height: i32) -> Node {
    Node { name: String::from(name), position, width, height }
}

#[test]
fn test_add_node() {
    let mut dag = LayoutGraph::new();
    dag.ensure_node(node("test", Point(0, 0), 42, 42));

    assert_eq!(1, dag.len());
    let found = dag.get_node("test");
    assert!(found.is_some());
    assert!(dag.contains("test"));
}

#[test]
fn test_add_edge() {
    let mut dag = LayoutGraph::new();
    dag.ensure_node(node("ref", Point(0, 0), 42, 42));
    dag.add_edge_with_target(
        "ref",
        node("target", Point(1, 1), 42, 42),
        Relation::LeftOf,
        Alignment::AlignBottom,
    );

    let edges = dag.get_edges_for_node("ref");
    assert!(edges.is_some());
    let edge = edges.unwrap().iter().find(|e| e.target == "target");
    assert!(edge.is_some());
}

#[test]
fn test_topological_sort() {
    let mut dag = LayoutGraph::new();
    dag.ensure_node(node("1", Point(0, 0), 42, 42));
    dag.add_edge_with_target("1", node("2", Point(1, 1), 42, 42), Relation::LeftOf, Alignment::AlignBottom);
    dag.add_edge_with_target("2", node("3", Point(1, 1), 42, 42), Relation::LeftOf, Alignment::AlignBottom);
    dag.ensure_node(node("0", Point(3, 3), 42, 42));
    dag.add_edge("0", "1", Relation::LeftOf, Alignment::AlignBottom);

    let sorted = dag.topological_sort();
    assert!(sorted.is_ok());

    for (i, n) in sorted.unwrap().iter().enumerate() {
        assert_eq!(i, n.parse::<usize>().unwrap());
    }
}

#[test]
fn test_apply() {
    let mut dag = LayoutGraph::new();
    dag.ensure_node(node("1", Point(100, 100), 100, 100));
    dag.add_edge_with_target("1", node("2", Point(200, 200), 100, 100), Relation::LeftOf, Alignment::AlignBottom);
    dag.add_edge_with_target("1", node("3", Point(300, 300), 100, 100), Relation::TopOf, Alignment::AlignLeft);

    let applied = dag.apply().unwrap();

    assert_eq!(Point(100, 0), applied.get_node("3").unwrap().position);
    assert_eq!(Point(0, 100), applied.get_node("2").unwrap().position);
    assert_eq!(Point(100, 100), applied.get_node("1").unwrap().position);
}

#[test]
fn ensure_node_keeps_the_first_node_of_a_name() {
    let mut dag = LayoutGraph::new();
    dag.ensure_node(node("a", Point(1, 2), 10, 10));
    dag.ensure_node(node("a", Point(5, 6), 20, 20));
    assert_eq!(1, dag.len());
    let a = dag.get_node("a").unwrap();
    assert_eq!(Point(1, 2), a.position);
    assert_eq!(10, a.width);
}

#[test]
fn add_edge_ignores_duplicates_and_unknown_references() {
    let mut dag = LayoutGraph::new();
    dag.ensure_node(node("a", Point(0, 0), 10, 10));
    dag.add_edge("a", "b", Relation::RightOf, Alignment::AlignTop);
    dag.add_edge("a", "b", Relation::RightOf, Alignment::AlignTop);
    dag.add_edge("missing", "b", Relation::RightOf, Alignment::AlignTop);
    assert_eq!(1, dag.get_edges_for_node("a").unwrap().len());
    assert!(dag.get_edges_for_node("missing").is_none());
    // A node without edges reports none.
    dag.ensure_node(node("b", Point(0, 0), 10, 10));
    assert!(dag.get_edges_for_node("b").is_none());
}

#[test]
fn cycles_are_reported() {
    let mut dag = LayoutGraph::new();
    dag.ensure_node(node("a", Point(0, 0), 10, 10));
    dag.add_edge_with_target("a", node("b", Point(0, 0), 10, 10), Relation::RightOf, Alignment::AlignTop);
    dag.add_edge("b", "a", Relation::RightOf, Alignment::AlignTop);
    assert_eq!(dag.topological_sort(), Err(String::from("cyclic dependency detected")));
    assert!(!dag.single_root() || dag.topological_sort().is_err());
    let mut again = LayoutGraph::new();
    again.ensure_node(node("a", Point(0, 0), 10, 10));
    again.add_edge("a", "a", Relation::LeftOf, Alignment::AlignTop);
    assert_eq!(again.apply().err(), Some(String::from("cyclic dependency detected")));
}

#[test]
fn normalize_space_moves_into_the_positive_quadrant() {
    let mut dag = LayoutGraph::new();
    dag.ensure_node(node("a", Point(100, 100), 100, 100));
    dag.add_edge_with_target("a", node("b", Point(0, 0), 150, 50), Relation::LeftOf, Alignment::AlignBottom);
    let mut applied = dag.apply().unwrap();
    assert_eq!(Point(-50, 150), applied.get_node("b").unwrap().position);
    let offset = applied.normalize_space().unwrap();
    assert_eq!(Point(-50, 100), offset);
    assert_eq!(Point(0, 50), applied.get_node("b").unwrap().position);
    assert_eq!(Point(150, 0), applied.get_node("a").unwrap().position);
}

#[test]
fn normalize_space_of_an_empty_graph() {
    let mut dag = LayoutGraph::new();
    assert_eq!(Ok(Point(0, 0)), dag.normalize_space());
}

#[test]
fn single_root_counts_nodes_without_incoming_edges() {
    let mut dag = LayoutGraph::new();
    dag.ensure_node(node("a", Point(0, 0), 10, 10));
    assert!(dag.single_root());
    dag.ensure_node(node("b", Point(0, 0), 10, 10));
    assert!(!dag.single_root());
    dag.add_edge("a", "b", Relation::RightOf, Alignment::AlignTop);
    assert!(dag.single_root());
}

#[test]
fn graph_iterator_walks_every_node_once() {
    let mut dag = LayoutGraph::new();
    dag.ensure_node(node("a", Point(0, 0), 10, 10));
    dag.add_edge_with_target("a", node("b", Point(0, 0), 10, 10), Relation::RightOf, Alignment::AlignTop);
    let mut it = GraphIterator::new(&dag);
    let (first, edges) = it.next().unwrap();
    assert_eq!(first.name, "a");
    assert_eq!(edges.len(), 1);
    let (second, edges) = it.next().unwrap();
    assert_eq!(second.name, "b");
    assert_eq!(edges.len(), 0);
    assert!(it.next().is_none());
}

#[test]
fn saturating_placement() {
    let mut dag = LayoutGraph::new();
    dag.ensure_node(node("a", Point(i32::MAX - 10, 0), 100, 100));
    dag.add_edge_with_target("a", node("b", Point(0, 0), 100, 100), Relation::RightOf, Alignment::AlignTop);
    let applied = dag.apply().unwrap();
    assert_eq!(Point(i32::MAX, 0), applied.get_node("b").unwrap().position);
}
