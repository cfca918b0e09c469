use graph_bfs::graph::{AdjGraph, Graph};

fn sample() -> AdjGraph<char> {
    let mut g = AdjGraph::new(false);
    g.insert('f', 'a');
    g.insert('a', 'b');
    g.insert('a', 'e');
    g.insert('b', 'e');
    g.insert('b', 'c');
    g.insert('e', 'd');
    g.insert('c', 'd');
    g
}

fn cube() -> AdjGraph<char> {
    let mut g = AdjGraph::new(false);
    g.insert('a', 'b');
    g.insert('b', 'c');
    g.insert('c', 'd');
    g.insert('d', 'a');
    g.insert('e', 'f');
    g.insert('f', 'g');
    g.insert('g', 'h');
    g.insert('h', 'e');
    g.insert('a', 'e');
    g.insert('b', 'f');
    g.insert('d', 'h');
    g.insert('c', 'g');
    g
}

#[test]
fn find_path() {
    let mut g = AdjGraph::new(false);
    g.insert('f', 'a');
    g.insert('a', 'b');
    g.insert('a', 'e');
    g.insert('b', 'e');
    g.insert('b', 'c');
    g.insert('e', 'd');
    g.insert('c', 'd');

    let path = graph_bfs::traversal::find_path(&g, &'f', &'c');

    assert_eq!(vec![&'f', &'a', &'b', &'c'], path);
}

#[test]
fn connected_components() {
    let mut g = AdjGraph::new(false);
    g.insert('f', 'a');
    g.insert('a', 'b');
    g.insert('a', 'e');
    g.insert('b', 'e');
    g.insert('b', 'c');
    g.insert('e', 'd');
    g.insert('c', 'd');
    g.insert('x', 'y');
    g.insert('y', 'z');

    assert_eq!(2, graph_bfs::traversal::connected_components(&g));
}

#[test]
fn bipartite() {
    let mut g = AdjGraph::new(false);

    g.insert('a', 'b');
    g.insert('b', 'c');
    g.insert('c', 'd');
    g.insert('d', 'a');
    g.insert('e', 'f');
    g.insert('f', 'g');
    g.insert('g', 'h');
    g.insert('h', 'e');
    g.insert('a', 'e');
    g.insert('b', 'f');
    g.insert('d', 'h');
    g.insert('c', 'g');

    assert!(graph_bfs::traversal::bipartite(&g));

    g.insert('e', 'g');
    assert_eq!(false, graph_bfs::traversal::bipartite(&g));
}

#[test]
fn path_is_a_shortest_walk_of_neighbours() {
    let g = sample();
    let path = graph_bfs::traversal::find_path(&g, &'f', &'d');
    assert_eq!(vec![&'f', &'a', &'e', &'d'], path);
    for w in path.windows(2) {
        let from = g.index(w[0]);
        let to = g.index(w[1]);
        assert!(g.edges(from).contains(&to));
    }
}

#[test]
fn path_back_to_start_is_one_label() {
    let g = sample();
    assert_eq!(vec![&'b'], graph_bfs::traversal::find_path(&g, &'b', &'b'));
}

#[test]
fn path_to_unreachable_label_is_empty() {
    let mut g = sample();
    g.insert('x', 'y');
    assert!(graph_bfs::traversal::find_path(&g, &'f', &'y').is_empty());
}

#[test]
fn directed_path_follows_direction() {
    let mut g = AdjGraph::new(true);
    g.insert(1u8, 2u8);
    g.insert(2u8, 3u8);
    g.insert(1u8, 3u8);
    assert_eq!(vec![&1u8, &3u8], graph_bfs::traversal::find_path(&g, &1, &3));
    assert!(graph_bfs::traversal::find_path(&g, &3, &1).is_empty());
}

#[test]
fn path_with_self_loop_at_start() {
    let mut g = AdjGraph::new(false);
    g.insert('s', 's');
    g.insert('s', 't');
    assert_eq!(vec![&'s', &'t'], graph_bfs::traversal::find_path(&g, &'s', &'t'));
}

#[test]
fn two_disjoint_edge_sets_make_two_components() {
    let mut g = AdjGraph::new(false);
    g.insert('a', 'b');
    g.insert('a', 'c');
    g.insert('x', 'y');
    assert_eq!(2, graph_bfs::traversal::connected_components(&g));
}

#[test]
fn components_of_empty_and_single_edge() {
    let g: AdjGraph<char> = AdjGraph::new(false);
    assert_eq!(0, graph_bfs::traversal::connected_components(&g));
    let mut h = AdjGraph::new(false);
    h.insert('a', 'b');
    assert_eq!(1, graph_bfs::traversal::connected_components(&h));
}

#[test]
fn directed_components_follow_index_order() {
    let mut g = AdjGraph::new(true);
    g.insert('b', 'a');
    assert_eq!(1, graph_bfs::traversal::connected_components(&g));
    let mut h = AdjGraph::new(true);
    h.insert('a', 'b');
    h.insert('c', 'b');
    assert_eq!(2, graph_bfs::traversal::connected_components(&h));
}

#[test]
fn even_cube_is_bipartite_and_odd_chord_breaks_it() {
    let mut g = cube();
    assert!(graph_bfs::traversal::bipartite(&g));
    g.insert('e', 'g');
    assert!(!graph_bfs::traversal::bipartite(&g));
}

#[test]
fn triangle_and_self_loop_are_not_bipartite() {
    let mut t = AdjGraph::new(false);
    t.insert('a', 'b');
    t.insert('b', 'c');
    t.insert('c', 'a');
    assert!(!graph_bfs::traversal::bipartite(&t));
    let mut s = AdjGraph::new(false);
    s.insert('a', 'a');
    assert!(!graph_bfs::traversal::bipartite(&s));
}

#[test]
fn bipartite_checks_every_component() {
    let mut g = AdjGraph::new(false);
    g.insert('a', 'b');
    g.insert('x', 'y');
    g.insert('y', 'z');
    assert!(graph_bfs::traversal::bipartite(&g));
    g.insert('z', 'x');
    assert!(!graph_bfs::traversal::bipartite(&g));
}

#[test]
fn path_follows_first_discovery() {
    let mut g = AdjGraph::new(false);
    g.insert('a', 'b');
    g.insert('a', 'c');
    g.insert('b', 'd');
    g.insert('c', 'd');
    assert_eq!(vec![&'a', &'b', &'d'], graph_bfs::traversal::find_path(&g, &'a', &'d'));
    let mut h = AdjGraph::new(false);
    h.insert('a', 'c');
    h.insert('a', 'b');
    h.insert('b', 'd');
    h.insert('c', 'd');
    assert_eq!(vec![&'a', &'c', &'d'], graph_bfs::traversal::find_path(&h, &'a', &'d'));
}
