use graph_bfs::graph::{AdjGraph, Graph};
use std::rc::Rc;

#[test]
fn insert() {
    let mut g = AdjGraph::new(false);
    g.insert("a", "b");
    g.insert("b", "c");
    g.insert("c", "d");
    g.insert("b", "d");

    assert_eq!(2, Rc::strong_count(g.shared_key(0)));
    assert_eq!(4, g.num_of_nodes());
    assert_eq!(4, g.num_of_edges());

    assert_eq!(3, g.index(&"d"));
    assert_eq!(&vec![2, 1], g.edges(3));
}

#[test]
fn empty_graph_has_nothing() {
    let g: AdjGraph<char> = AdjGraph::new(true);
    assert_eq!(0, g.num_of_nodes());
    assert_eq!(0, g.num_of_edges());
}

#[test]
fn undirected_edges_are_half_the_entries() {
    let mut g = AdjGraph::new(false);
    g.insert('a', 'b');
    g.insert('b', 'c');
    g.insert('c', 'a');
    let total: usize = (0..g.num_of_nodes()).map(|i| g.edges(i).len()).sum();
    assert_eq!(6, total);
    assert_eq!(3, g.num_of_edges());
    assert_eq!(&vec![1, 2], g.edges(0));
    assert_eq!(&vec![0, 2], g.edges(1));
    assert_eq!(&vec![1, 0], g.edges(2));
}

#[test]
fn directed_edges_are_all_entries() {
    let mut g = AdjGraph::new(true);
    g.insert('a', 'b');
    g.insert('b', 'c');
    g.insert('c', 'a');
    g.insert('a', 'c');
    assert_eq!(3, g.num_of_nodes());
    assert_eq!(4, g.num_of_edges());
    assert_eq!(&vec![1, 2], g.edges(0));
    assert_eq!(&vec![2], g.edges(1));
    assert_eq!(&vec![0], g.edges(2));
}

#[test]
fn directed_target_gets_a_node() {
    let mut g = AdjGraph::new(true);
    g.insert(10u32, 20u32);
    assert_eq!(2, g.num_of_nodes());
    assert_eq!(1, g.index(&20));
    assert!(g.edges(1).is_empty());
}

#[test]
fn key_of_index_is_the_label() {
    let mut g = AdjGraph::new(false);
    let labels = ["x", "y", "z", "w"];
    g.insert("x", "y");
    g.insert("z", "x");
    g.insert("w", "w");
    for l in labels.iter() {
        assert_eq!(l, g.key(g.index(l)));
    }
    assert_eq!(2, g.index(&"z"));
    assert_eq!(&"w", g.key(3));
}

#[test]
fn reinsert_adds_an_edge_not_a_node() {
    let mut g = AdjGraph::new(false);
    g.insert('p', 'q');
    assert_eq!(2, g.num_of_nodes());
    assert_eq!(1, g.num_of_edges());
    g.insert('p', 'q');
    assert_eq!(2, g.num_of_nodes());
    assert_eq!(2, g.num_of_edges());
    g.insert('q', 'p');
    assert_eq!(2, g.num_of_nodes());
    assert_eq!(3, g.num_of_edges());
    assert_eq!(&vec![1, 1, 1], g.edges(0));

    let mut d = AdjGraph::new(true);
    d.insert('p', 'q');
    d.insert('p', 'q');
    assert_eq!(2, d.num_of_nodes());
    assert_eq!(2, d.num_of_edges());
}

#[test]
fn self_loop_is_stored_twice_undirected() {
    let mut g = AdjGraph::new(false);
    g.insert('s', 's');
    assert_eq!(1, g.num_of_nodes());
    assert_eq!(1, g.num_of_edges());
    assert_eq!(&vec![0, 0], g.edges(0));
}

#[test]
fn labels_are_shared_not_copied() {
    let mut g = AdjGraph::new(false);
    g.insert(String::from("left"), String::from("right"));
    g.insert(String::from("left"), String::from("right"));
    assert_eq!(2, Rc::strong_count(g.shared_key(0)));
    assert_eq!(2, Rc::strong_count(g.shared_key(1)));
    assert_eq!("right", g.key(1).as_str());
}
