use algs4::graph_::depth_first_paths::DepthFirstPaths;
use algs4::graph_::graph::Graph;

#[test]
fn depth_first_paths_test() {
    let tiny_cg = [
        (0, 5), (2, 4), (2, 3), (1, 2),
        (0, 1), (3, 4), (3, 5), (0, 2),
    ];

    let mut g = Graph::<i32>::new();

    for &(v, w) in tiny_cg.iter() {
        g.add_edge(v, w);
    }

    let dfp = DepthFirstPaths::new(&g, 0);
    assert_eq!(dfp.has_path_to(4), true);
    assert_eq!(dfp.path_to(4), [0, 5, 3, 2, 4]);
}

#[test]
fn depth_first_paths_in_two_components() {
    let mut g = Graph::<i32>::new();
    for &(v, w) in [(0, 1), (1, 2), (3, 4)].iter() {
        g.add_edge(v, w);
    }

    let dfp = DepthFirstPaths::new(&g, 0);
    assert!(dfp.has_path_to(0));
    assert!(dfp.has_path_to(1));
    assert!(dfp.has_path_to(2));
    assert!(!dfp.has_path_to(3));
    assert!(!dfp.has_path_to(4));
    assert!(!dfp.has_path_to(7));
    assert_eq!(dfp.path_to(0), [0]);
    assert_eq!(dfp.path_to(2), [0, 1, 2]);

    let other = DepthFirstPaths::new(&g, 4);
    assert!(other.has_path_to(3));
    assert!(!other.has_path_to(0));
    assert_eq!(other.path_to(3), [4, 3]);
}

#[test]
fn depth_first_paths_from_a_vertex_outside_the_graph() {
    let mut g = Graph::<i32>::new();
    g.add_edge(1, 2);
    let dfp = DepthFirstPaths::new(&g, 9);
    assert!(dfp.has_path_to(9));
    assert!(!dfp.has_path_to(1));
    assert_eq!(dfp.path_to(9), [9]);
}

#[test]
fn graph_adjacency_lists() {
    let mut g = Graph::<i32>::new();
    assert!(g.adj(1).is_none());
    g.add_edge(1, 2);
    g.add_edge(1, 3);
    g.add_edge(4, 4);
    assert_eq!(g.adj(1), Some(&vec![2, 3]));
    assert_eq!(g.adj(2), Some(&vec![1]));
    assert_eq!(g.adj(3), Some(&vec![1]));
    assert_eq!(g.adj(4), Some(&vec![4, 4]));
    assert!(g.adj(5).is_none());
}

#[test]
fn depth_first_paths_follow_the_search_tree() {
    let tiny_cg = [
        (0, 5), (2, 4), (2, 3), (1, 2),
        (0, 1), (3, 4), (3, 5), (0, 2),
    ];
    let mut g = Graph::<i32>::new();
    for &(v, w) in tiny_cg.iter() {
        g.add_edge(v, w);
    }

    let dfp = DepthFirstPaths::new(&g, 0);
    assert_eq!(dfp.path_to(0), [0]);
    assert_eq!(dfp.path_to(5), [0, 5]);
    assert_eq!(dfp.path_to(3), [0, 5, 3]);
    assert_eq!(dfp.path_to(2), [0, 5, 3, 2]);
    assert_eq!(dfp.path_to(1), [0, 5, 3, 2, 1]);
    for v in 0..6 {
        let path = dfp.path_to(v);
        for i in 0..path.len() {
            for j in i + 1..path.len() {
                assert_ne!(path[i], path[j]);
            }
        }
    }
}
